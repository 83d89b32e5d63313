//! The position: twelve piece bitboards, the side to move, the castling
//! rights, the en-passant target and the two move clocks.

use crate::bits::{bit, lemma_difference, lemma_mask, lemma_union, square_mask};
use vstd::prelude::*;
use vstd::std_specs::bits::u64_trailing_zeros;

verus! {

/// A piece of one colour: white or black pawn, knight, bishop, rook, queen
/// or king.
#[derive(Clone, Copy, PartialEq, Eq, Debug, Structural)]
pub enum PieceType {
    WP,
    WN,
    WB,
    WR,
    WQ,
    WK,
    BP,
    BN,
    BB,
    BR,
    BQ,
    BK,
}

impl PieceType {
    pub open spec fn spec_is_white(self) -> bool {
        self == PieceType::WP || self == PieceType::WN || self == PieceType::WB || self
            == PieceType::WR || self == PieceType::WQ || self == PieceType::WK
    }

    /// Whether the piece is white.
    #[verifier::when_used_as_spec(spec_is_white)]
    pub fn is_white(self) -> (w: bool)
        ensures
            w == self.spec_is_white(),
    {
        match self {
            PieceType::WP
            | PieceType::WN
            | PieceType::WB
            | PieceType::WR
            | PieceType::WQ
            | PieceType::WK => true,
            _ => false,
        }
    }

    pub open spec fn spec_is_pawn(self) -> bool {
        self == PieceType::WP || self == PieceType::BP
    }

    /// Whether the piece is a pawn.
    #[verifier::when_used_as_spec(spec_is_pawn)]
    pub fn is_pawn(self) -> (p: bool)
        ensures
            p == self.spec_is_pawn(),
    {
        match self {
            PieceType::WP | PieceType::BP => true,
            _ => false,
        }
    }

    pub open spec fn spec_is_king(self) -> bool {
        self == PieceType::WK || self == PieceType::BK
    }

    /// Whether the piece is a king.
    #[verifier::when_used_as_spec(spec_is_king)]
    pub fn is_king(self) -> (k: bool)
        ensures
            k == self.spec_is_king(),
    {
        match self {
            PieceType::WK | PieceType::BK => true,
            _ => false,
        }
    }
}

/// The file of a square, 0 for the a-file.
pub open spec fn file_of(sq: u64) -> u64 {
    sq % 8
}

/// The rank of a square, 0 for the first rank.
pub open spec fn rank_of(sq: u64) -> u64 {
    sq / 8
}

/// A move: the square left, the square reached and, for a promotion, the
/// piece that appears on the square reached.
#[derive(Clone, Copy, PartialEq, Eq, Debug, Structural)]
pub struct Move {
    pub from: u64,
    pub to: u64,
    pub promotion: Option<PieceType>,
}

/// A chess position. Bit `i` of a piece bitboard is set when that piece
/// stands on square `i`.
#[derive(Clone, Copy, PartialEq, Eq, Debug, Structural)]
pub struct Board {
    pub w_p_bb: u64,
    pub w_n_bb: u64,
    pub w_b_bb: u64,
    pub w_r_bb: u64,
    pub w_q_bb: u64,
    pub w_k_bb: u64,
    pub b_p_bb: u64,
    pub b_n_bb: u64,
    pub b_b_bb: u64,
    pub b_r_bb: u64,
    pub b_q_bb: u64,
    pub b_k_bb: u64,
    pub is_w_move: bool,
    pub is_w_castle: bool,
    pub is_w_q_castle: bool,
    pub is_b_castle: bool,
    pub is_b_q_castle: bool,
    pub en_passent: Option<u64>,
    pub halfmove_clock: u32,
    pub fullmove_clock: u32,
}

/// What a position is, square by square: the mathematical model of a
/// [`Board`].
pub struct Position {
    /// The piece on each of the 64 squares.
    pub squares: Seq<Option<PieceType>>,
    pub white_to_move: bool,
    pub white_kingside: bool,
    pub white_queenside: bool,
    pub black_kingside: bool,
    pub black_queenside: bool,
    /// The square a pawn would land on when capturing en passant.
    pub en_passant: Option<u64>,
    pub halfmove_clock: int,
    pub fullmove_number: int,
}

impl Board {
    /// The bitboard of one piece.
    pub open spec fn bb(self, pt: PieceType) -> u64 {
        match pt {
            PieceType::WP => self.w_p_bb,
            PieceType::WN => self.w_n_bb,
            PieceType::WB => self.w_b_bb,
            PieceType::WR => self.w_r_bb,
            PieceType::WQ => self.w_q_bb,
            PieceType::WK => self.w_k_bb,
            PieceType::BP => self.b_p_bb,
            PieceType::BN => self.b_n_bb,
            PieceType::BB => self.b_b_bb,
            PieceType::BR => self.b_r_bb,
            PieceType::BQ => self.b_q_bb,
            PieceType::BK => self.b_k_bb,
        }
    }

    /// The first piece, white before black and pawn to king, whose bitboard
    /// meets `mask`.
    #[verifier::opaque]
    pub open spec fn piece_meeting(self, mask: u64) -> Option<PieceType> {
        if self.w_p_bb & mask != 0 {
            Some(PieceType::WP)
        } else if self.w_n_bb & mask != 0 {
            Some(PieceType::WN)
        } else if self.w_b_bb & mask != 0 {
            Some(PieceType::WB)
        } else if self.w_r_bb & mask != 0 {
            Some(PieceType::WR)
        } else if self.w_q_bb & mask != 0 {
            Some(PieceType::WQ)
        } else if self.w_k_bb & mask != 0 {
            Some(PieceType::WK)
        } else if self.b_p_bb & mask != 0 {
            Some(PieceType::BP)
        } else if self.b_n_bb & mask != 0 {
            Some(PieceType::BN)
        } else if self.b_b_bb & mask != 0 {
            Some(PieceType::BB)
        } else if self.b_r_bb & mask != 0 {
            Some(PieceType::BR)
        } else if self.b_q_bb & mask != 0 {
            Some(PieceType::BQ)
        } else if self.b_k_bb & mask != 0 {
            Some(PieceType::BK)
        } else {
            None
        }
    }

    /// The piece on a square.
    pub open spec fn piece_at(self, sq: u64) -> Option<PieceType> {
        self.piece_meeting(square_mask(sq))
    }

    /// No square holds two pieces.
    #[verifier::opaque]
    pub open spec fn disjoint(self) -> bool {
        forall|pt: PieceType, sq: u64|
            sq < 64 && #[trigger] bit(self.bb(pt), sq) ==> self.piece_at(sq) == Some(pt)
    }

    /// The invariant of a position: no square holds two pieces, and an
    /// en-passant target is a single square.
    pub open spec fn wf(self) -> bool {
        &&& self.disjoint()
        &&& match self.en_passent {
            Some(m) => u64_trailing_zeros(m) < 64 && m == square_mask(u64_trailing_zeros(m) as u64),
            None => true,
        }
    }

    /// All white pieces.
    pub open spec fn spec_white(&self) -> u64 {
        self.w_p_bb | self.w_n_bb | self.w_b_bb | self.w_r_bb | self.w_q_bb | self.w_k_bb
    }

    /// All black pieces.
    pub open spec fn spec_black(&self) -> u64 {
        self.b_p_bb | self.b_n_bb | self.b_b_bb | self.b_r_bb | self.b_q_bb | self.b_k_bb
    }

    /// The bitboard of one piece.
    pub fn bitboard(&self, pt: PieceType) -> (r: u64)
        ensures
            r == self.bb(pt),
    {
        match pt {
            PieceType::WP => self.w_p_bb,
            PieceType::WN => self.w_n_bb,
            PieceType::WB => self.w_b_bb,
            PieceType::WR => self.w_r_bb,
            PieceType::WQ => self.w_q_bb,
            PieceType::WK => self.w_k_bb,
            PieceType::BP => self.b_p_bb,
            PieceType::BN => self.b_n_bb,
            PieceType::BB => self.b_b_bb,
            PieceType::BR => self.b_r_bb,
            PieceType::BQ => self.b_q_bb,
            PieceType::BK => self.b_k_bb,
        }
    }

    /// The bitboard of all white pieces.
    #[verifier::when_used_as_spec(spec_white)]
    pub fn white(&self) -> (r: u64)
        ensures
            r == self.spec_white(),
    {
        self.w_p_bb | self.w_n_bb | self.w_b_bb | self.w_r_bb | self.w_q_bb | self.w_k_bb
    }

    /// The bitboard of all black pieces.
    #[verifier::when_used_as_spec(spec_black)]
    pub fn black(&self) -> (r: u64)
        ensures
            r == self.spec_black(),
    {
        self.b_p_bb | self.b_n_bb | self.b_b_bb | self.b_r_bb | self.b_q_bb | self.b_k_bb
    }
}

impl View for Board {
    type V = Position;

    open spec fn view(&self) -> Position {
        Position {
            squares: Seq::new(64, |i: int| self.piece_at(i as u64)),
            white_to_move: self.is_w_move,
            white_kingside: self.is_w_castle,
            white_queenside: self.is_w_q_castle,
            black_kingside: self.is_b_castle,
            black_queenside: self.is_b_q_castle,
            en_passant: match self.en_passent {
                Some(m) => Some(u64_trailing_zeros(m) as u64),
                None => None,
            },
            halfmove_clock: self.halfmove_clock as int,
            fullmove_number: self.fullmove_clock as int,
        }
    }
}

/// The piece, if any, whose bitboard meets `bb`; where several do, the
/// first in the order white pawn to white king, then black pawn to black
/// king.
pub fn get_piecetype(board: &Board, bb: u64) -> (r: Option<PieceType>)
    ensures
        r == board.piece_meeting(bb),
{
    reveal(Board::piece_meeting);
    if board.w_p_bb & bb != 0 {
        Some(PieceType::WP)
    } else if board.w_n_bb & bb != 0 {
        Some(PieceType::WN)
    } else if board.w_b_bb & bb != 0 {
        Some(PieceType::WB)
    } else if board.w_r_bb & bb != 0 {
        Some(PieceType::WR)
    } else if board.w_q_bb & bb != 0 {
        Some(PieceType::WQ)
    } else if board.w_k_bb & bb != 0 {
        Some(PieceType::WK)
    } else if board.b_p_bb & bb != 0 {
        Some(PieceType::BP)
    } else if board.b_n_bb & bb != 0 {
        Some(PieceType::BN)
    } else if board.b_b_bb & bb != 0 {
        Some(PieceType::BB)
    } else if board.b_r_bb & bb != 0 {
        Some(PieceType::BR)
    } else if board.b_q_bb & bb != 0 {
        Some(PieceType::BQ)
    } else if board.b_k_bb & bb != 0 {
        Some(PieceType::BK)
    } else {
        None
    }
}

impl Board {
    /// The piece on square `sq`.
    pub fn piece_on(&self, sq: u64) -> (r: Option<PieceType>)
        requires
            sq < 64,
        ensures
            r == self.piece_at(sq),
            r == self@.squares[sq as int],
    {
        get_piecetype(self, 1u64 << sq)
    }

    /// Takes the piece `pt` off square `sq`, if it stands there.
    pub fn remove(&mut self, pt: PieceType, sq: u64)
        requires
            sq < 64,
            old(self).disjoint(),
        ensures
            final(self).disjoint(),
            final(self)@ == (Position {
                squares: if old(self)@.squares[sq as int] == Some(pt) {
                    old(self)@.squares.update(sq as int, None)
                } else {
                    old(self)@.squares
                },
                ..old(self)@
            }),
            final(self).en_passent == old(self).en_passent,
    {
        let ghost before = *self;
        let keep: u64 = !(1u64 << sq);
        match pt {
            PieceType::WP => self.w_p_bb = self.w_p_bb & keep,
            PieceType::WN => self.w_n_bb = self.w_n_bb & keep,
            PieceType::WB => self.w_b_bb = self.w_b_bb & keep,
            PieceType::WR => self.w_r_bb = self.w_r_bb & keep,
            PieceType::WQ => self.w_q_bb = self.w_q_bb & keep,
            PieceType::WK => self.w_k_bb = self.w_k_bb & keep,
            PieceType::BP => self.b_p_bb = self.b_p_bb & keep,
            PieceType::BN => self.b_n_bb = self.b_n_bb & keep,
            PieceType::BB => self.b_b_bb = self.b_b_bb & keep,
            PieceType::BR => self.b_r_bb = self.b_r_bb & keep,
            PieceType::BQ => self.b_q_bb = self.b_q_bb & keep,
            PieceType::BK => self.b_k_bb = self.b_k_bb & keep,
        }
        proof {
            lemma_remove(before, *self, pt, sq);
        }
    }

    /// Puts the piece `pt` on the empty square `sq`.
    pub fn place(&mut self, pt: PieceType, sq: u64)
        requires
            sq < 64,
            old(self).disjoint(),
            old(self)@.squares[sq as int] is None,
        ensures
            final(self).disjoint(),
            final(self)@ == (Position {
                squares: old(self)@.squares.update(sq as int, Some(pt)),
                ..old(self)@
            }),
            final(self).en_passent == old(self).en_passent,
    {
        let ghost before = *self;
        let m: u64 = 1u64 << sq;
        match pt {
            PieceType::WP => self.w_p_bb = self.w_p_bb | m,
            PieceType::WN => self.w_n_bb = self.w_n_bb | m,
            PieceType::WB => self.w_b_bb = self.w_b_bb | m,
            PieceType::WR => self.w_r_bb = self.w_r_bb | m,
            PieceType::WQ => self.w_q_bb = self.w_q_bb | m,
            PieceType::WK => self.w_k_bb = self.w_k_bb | m,
            PieceType::BP => self.b_p_bb = self.b_p_bb | m,
            PieceType::BN => self.b_n_bb = self.b_n_bb | m,
            PieceType::BB => self.b_b_bb = self.b_b_bb | m,
            PieceType::BR => self.b_r_bb = self.b_r_bb | m,
            PieceType::BQ => self.b_q_bb = self.b_q_bb | m,
            PieceType::BK => self.b_k_bb = self.b_k_bb | m,
        }
        proof {
            lemma_place(before, *self, pt, sq);
        }
    }
}

/// What taking `pt` off `sq` does to a position.
proof fn lemma_remove(before: Board, after: Board, pt: PieceType, sq: u64)
    requires
        sq < 64,
        before.disjoint(),
        after.bb(pt) == before.bb(pt) & !square_mask(sq),
        same_except(before, after, pt),
    ensures
        after.disjoint(),
        after@.squares == (if before@.squares[sq as int] == Some(pt) {
            before@.squares.update(sq as int, None)
        } else {
            before@.squares
        }),
{
    assert forall|s: u64| s < 64 implies #[trigger] after.piece_at(s) == (if s == sq
        && before.piece_at(sq) == Some(pt) {
        None
    } else {
        before.piece_at(s)
    }) by {
        lemma_removed_square(before, after, pt, sq, s);
    }
    assert(after.disjoint()) by {
        reveal(Board::disjoint);
        assert forall|p: PieceType, s: u64| s < 64 && #[trigger] bit(after.bb(p), s) implies
            after.piece_at(s) == Some(p) by {
            lemma_removed_square(before, after, pt, sq, s);
            lemma_difference(before.bb(pt), square_mask(sq));
            lemma_mask(sq);
            assert(bit(before.bb(p), s));
        }
    }
    assert(after@.squares =~= if before@.squares[sq as int] == Some(pt) {
        before@.squares.update(sq as int, None)
    } else {
        before@.squares
    });
}

/// What putting `pt` on the empty square `sq` does to a position.
proof fn lemma_place(before: Board, after: Board, pt: PieceType, sq: u64)
    requires
        sq < 64,
        before.disjoint(),
        before.piece_at(sq) is None,
        after.bb(pt) == before.bb(pt) | square_mask(sq),
        same_except(before, after, pt),
    ensures
        after.disjoint(),
        after@.squares == before@.squares.update(sq as int, Some(pt)),
{
    assert forall|s: u64| s < 64 implies #[trigger] after.piece_at(s) == (if s == sq {
        Some(pt)
    } else {
        before.piece_at(s)
    }) by {
        lemma_placed_square(before, after, pt, sq, s);
    }
    assert(after.disjoint()) by {
        reveal(Board::disjoint);
        assert forall|p: PieceType, s: u64| s < 64 && #[trigger] bit(after.bb(p), s) implies
            after.piece_at(s) == Some(p) by {
            lemma_placed_square(before, after, pt, sq, s);
            lemma_union(before.bb(pt), square_mask(sq));
            lemma_mask(sq);
            lemma_bits_of(before, sq);
            if s != sq {
                assert(bit(before.bb(p), s));
            }
        }
    }
    assert(after@.squares =~= before@.squares.update(sq as int, Some(pt)));
}

/// The rook's part in castling.
pub struct RookHop {
    /// The corner the rook leaves.
    pub corner: u64,
    /// The square next to the king's destination where it lands.
    pub landing: u64,
    pub rook: PieceType,
}

/// The rook hop that goes with a king's move of two files from its home
/// square, if `m` is such a move.
pub open spec fn rook_hop(mover: PieceType, m: Move) -> Option<RookHop> {
    if mover == PieceType::WK && m.from == 4 && m.to == 6 {
        Some(RookHop { corner: 7, landing: 5, rook: PieceType::WR })
    } else if mover == PieceType::WK && m.from == 4 && m.to == 2 {
        Some(RookHop { corner: 0, landing: 3, rook: PieceType::WR })
    } else if mover == PieceType::BK && m.from == 60 && m.to == 62 {
        Some(RookHop { corner: 63, landing: 61, rook: PieceType::BR })
    } else if mover == PieceType::BK && m.from == 60 && m.to == 58 {
        Some(RookHop { corner: 56, landing: 59, rook: PieceType::BR })
    } else {
        None
    }
}

/// Whether a pawn may turn into `pt`: knight, bishop, rook or queen.
pub open spec fn promotable(pt: PieceType) -> bool {
    !pt.is_pawn() && !pt.is_king()
}

impl Position {
    /// The piece on a square.
    pub open spec fn at(self, sq: u64) -> Option<PieceType> {
        self.squares[sq as int]
    }

    /// Whether the move has the shape of an en-passant capture: a pawn
    /// changes file and lands on an empty square.
    pub open spec fn takes_en_passant(self, m: Move) -> bool {
        &&& self.at(m.from) matches Some(mover) && mover.is_pawn()
        &&& self.at(m.to) is None
        &&& file_of(m.to) != file_of(m.from)
    }

    /// Whether the move is a pawn's double push from its home rank.
    pub open spec fn double_push(self, m: Move) -> bool {
        ||| (self.at(m.from) == Some(PieceType::WP) && rank_of(m.from) == 1 && rank_of(m.to) == 3)
        ||| (self.at(m.from) == Some(PieceType::BP) && rank_of(m.from) == 6 && rank_of(m.to) == 4)
    }

    /// Whether the move takes a piece, on its destination or en passant.
    pub open spec fn captures(self, m: Move) -> bool {
        self.at(m.to) is Some || self.takes_en_passant(m)
    }

    /// What a move must meet to be played on this position. Every
    /// pseudo-legal move does: a piece of the side to move leaves `from`
    /// for another square, only a pawn promotes, a castling rook lands on
    /// an empty square, an en-passant capture has a rank behind it, and the
    /// clocks have room to advance.
    pub open spec fn admits(self, m: Move) -> bool {
        &&& m.from < 64
        &&& m.to < 64
        &&& m.from != m.to
        &&& self.at(m.from) matches Some(mover) && {
            &&& mover.is_white() == self.white_to_move
            &&& (m.promotion matches Some(pp) ==> mover.is_pawn() && promotable(pp))
            &&& (rook_hop(mover, m) matches Some(hop) ==> self.at(hop.landing) is None)
            &&& (self.takes_en_passant(m) ==> if mover.is_white() {
                m.to >= 8
            } else {
                m.to < 56
            })
        }
        &&& self.halfmove_clock < u32::MAX
        &&& self.fullmove_number < u32::MAX
    }

    /// The squares once the rook has hopped, if the move is a castling move.
    pub open spec fn hopped(self, m: Move) -> Seq<Option<PieceType>> {
        match rook_hop(self.at(m.from).unwrap(), m) {
            Some(hop) => (if self.at(hop.corner) == Some(hop.rook) {
                self.squares.update(hop.corner as int, None)
            } else {
                self.squares
            }).update(hop.landing as int, Some(hop.rook)),
            None => self.squares,
        }
    }

    /// The square of the pawn that an en-passant capture takes: one rank
    /// behind the destination.
    pub open spec fn victim_square(self, m: Move) -> int {
        if self.at(m.from).unwrap().is_white() {
            m.to - 8
        } else {
            m.to + 8
        }
    }

    /// The squares once the rook has hopped and what the move takes is off
    /// the board: the piece on the destination, or the enemy pawn behind it
    /// when a pawn takes en passant.
    pub open spec fn taken(self, m: Move) -> Seq<Option<PieceType>> {
        let enemy_pawn = if self.at(m.from).unwrap().is_white() {
            PieceType::BP
        } else {
            PieceType::WP
        };
        if self.takes_en_passant(m) {
            if self.hopped(m)[self.victim_square(m)] == Some(enemy_pawn) {
                self.hopped(m).update(self.victim_square(m), None)
            } else {
                self.hopped(m)
            }
        } else {
            self.hopped(m).update(m.to as int, None)
        }
    }

    /// The squares after the move: the piece, or what it promotes to, stands
    /// on the destination, and the square it left is empty.
    pub open spec fn squares_after(self, m: Move) -> Seq<Option<PieceType>> {
        let placed = match m.promotion {
            Some(pp) => pp,
            None => self.at(m.from).unwrap(),
        };
        self.taken(m).update(m.to as int, Some(placed)).update(m.from as int, None)
    }

    /// The en-passant target after the move: the square a pawn skipped in a
    /// double push from its home rank.
    pub open spec fn target_after(self, m: Move) -> Option<u64> {
        if self.double_push(m) {
            if self.white_to_move {
                Some((16 + file_of(m.from)) as u64)
            } else {
                Some((40 + file_of(m.from)) as u64)
            }
        } else {
            None
        }
    }

    /// Whether the move involves square `corner` as a rook's: a rook of
    /// kind `rook` leaves it or is taken on it.
    pub open spec fn disturbs_rook(self, m: Move, rook: PieceType, corner: u64) -> bool {
        ||| (self.at(m.from) == Some(rook) && m.from == corner)
        ||| (self.at(m.to) == Some(rook) && m.to == corner)
    }

    /// The position after the pieces have moved: squares, castling rights,
    /// en-passant target and halfmove clock are those after the move, while
    /// the side to move and the fullmove number are still those before it.
    pub open spec fn moved(self, m: Move) -> Position {
        let mover = self.at(m.from).unwrap();
        Position {
            squares: self.squares_after(m),
            white_to_move: self.white_to_move,
            white_kingside: self.white_kingside && mover != PieceType::WK && !self.disturbs_rook(
                m,
                PieceType::WR,
                7,
            ),
            white_queenside: self.white_queenside && mover != PieceType::WK
                && !self.disturbs_rook(m, PieceType::WR, 0),
            black_kingside: self.black_kingside && mover != PieceType::BK && !self.disturbs_rook(
                m,
                PieceType::BR,
                63,
            ),
            black_queenside: self.black_queenside && mover != PieceType::BK
                && !self.disturbs_rook(m, PieceType::BR, 56),
            en_passant: self.target_after(m),
            halfmove_clock: if mover.is_pawn() || self.captures(m) {
                0
            } else {
                self.halfmove_clock + 1
            },
            fullmove_number: self.fullmove_number,
        }
    }

    /// The position with the turn handed over: the other side is to move,
    /// and the fullmove number has advanced if Black was to move.
    pub open spec fn passed(self) -> Position {
        Position {
            white_to_move: !self.white_to_move,
            fullmove_number: if self.white_to_move {
                self.fullmove_number
            } else {
                self.fullmove_number + 1
            },
            ..self
        }
    }

    /// The position after a move has been played.
    pub open spec fn apply(self, m: Move) -> Position {
        self.moved(m).passed()
    }
}

/// A single-square bitboard has as many trailing zeros as its square's
/// index.
pub proof fn lemma_mask_index(k: u64)
    requires
        k < 64,
    ensures
        u64_trailing_zeros(square_mask(k)) == k,
{
    let m = square_mask(k);
    lemma_mask(k);
    vstd::std_specs::bits::axiom_u64_trailing_zeros(m);
    let t = u64_trailing_zeros(m) as u64;
    crate::bits::lemma_shift_test(m, t);
    assert(bit(m, t));
}

impl Board {
    /// Hops the rook over the king when `m` is a castling move.
    fn hop_rook(&mut self, mover: PieceType, m: Move)
        requires
            old(self).disjoint(),
            old(self)@.admits(m),
            old(self)@.at(m.from) == Some(mover),
        ensures
            final(self).disjoint(),
            final(self)@ == (Position { squares: old(self)@.hopped(m), ..old(self)@ }),
            final(self).en_passent == old(self).en_passent,
    {
        if mover == PieceType::WK && m.from == 4 && m.to == 6 {
            self.remove(PieceType::WR, 7);
            self.place(PieceType::WR, 5);
        } else if mover == PieceType::WK && m.from == 4 && m.to == 2 {
            self.remove(PieceType::WR, 0);
            self.place(PieceType::WR, 3);
        } else if mover == PieceType::BK && m.from == 60 && m.to == 62 {
            self.remove(PieceType::BR, 63);
            self.place(PieceType::BR, 61);
        } else if mover == PieceType::BK && m.from == 60 && m.to == 58 {
            self.remove(PieceType::BR, 56);
            self.place(PieceType::BR, 59);
        }
    }

    /// Takes off the board what the move captures, and says whether it
    /// captures anything.
    fn take_captured(
        &mut self,
        Ghost(start): Ghost<Position>,
        mover: PieceType,
        target: Option<PieceType>,
        m: Move,
    ) -> (captured: bool)
        requires
            old(self).disjoint(),
            start.squares.len() == 64,
            start.admits(m),
            start.at(m.from) == Some(mover),
            start.at(m.to) == target,
            old(self)@.squares == start.hopped(m),
        ensures
            final(self).disjoint(),
            final(self)@ == (Position { squares: start.taken(m), ..old(self)@ }),
            final(self).en_passent == old(self).en_passent,
            captured == start.captures(m),
    {
        match target {
            Some(t) => {
                self.remove(t, m.to);
                true
            },
            None => {
                if mover.is_pawn() && m.to % 8 != m.from % 8 {
                    if mover.is_white() {
                        self.remove(PieceType::BP, m.to - 8);
                    } else {
                        self.remove(PieceType::WP, m.to + 8);
                    }
                    true
                } else {
                    proof {
                        assert(start.taken(m) =~= start.hopped(m));
                    }
                    false
                }
            },
        }
    }

    /// Updates the castling rights for a move of `mover` that takes
    /// `target`: a king's move forfeits both rights of its side; a rook
    /// leaving its corner, or taken on it, forfeits that corner's right.
    fn update_rights(
        &mut self,
        Ghost(start): Ghost<Position>,
        mover: PieceType,
        target: Option<PieceType>,
        m: Move,
    )
        requires
            start.at(m.from) == Some(mover),
            start.at(m.to) == target,
            old(self).is_w_castle == start.white_kingside,
            old(self).is_w_q_castle == start.white_queenside,
            old(self).is_b_castle == start.black_kingside,
            old(self).is_b_q_castle == start.black_queenside,
        ensures
            *final(self) == (Board {
                is_w_castle: start.moved(m).white_kingside,
                is_w_q_castle: start.moved(m).white_queenside,
                is_b_castle: start.moved(m).black_kingside,
                is_b_q_castle: start.moved(m).black_queenside,
                ..*old(self)
            }),
    {
        if mover == PieceType::WK {
            self.is_w_castle = false;
            self.is_w_q_castle = false;
        } else if mover == PieceType::BK {
            self.is_b_castle = false;
            self.is_b_q_castle = false;
        }
        let white_rook_left = mover == PieceType::WR;
        let black_rook_left = mover == PieceType::BR;
        let white_rook_taken = target == Some(PieceType::WR);
        let black_rook_taken = target == Some(PieceType::BR);
        if (white_rook_left && m.from == 0) || (white_rook_taken && m.to == 0) {
            self.is_w_q_castle = false;
        }
        if (white_rook_left && m.from == 7) || (white_rook_taken && m.to == 7) {
            self.is_w_castle = false;
        }
        if (black_rook_left && m.from == 56) || (black_rook_taken && m.to == 56) {
            self.is_b_q_castle = false;
        }
        if (black_rook_left && m.from == 63) || (black_rook_taken && m.to == 63) {
            self.is_b_castle = false;
        }
    }

    /// Plays the pieces' part of a move: moves the piece, takes what it
    /// captures, hops the rook when the king castles, and updates castling
    /// rights, en-passant target and halfmove clock. The turn is not yet
    /// handed over.
    pub fn make_move(&mut self, m: Move)
        requires
            old(self).wf(),
            old(self)@.admits(m),
        ensures
            final(self).wf(),
            final(self)@ == old(self)@.moved(m),
    {
        let ghost start = *self;
        let mover = self.piece_on(m.from).unwrap();
        let target = self.piece_on(m.to);
        let from_file: u64 = m.from % 8;
        let from_rank: u64 = m.from / 8;
        let to_rank: u64 = m.to / 8;
        let ticked: u32 = self.halfmove_clock + 1;

        self.hop_rook(mover, m);
        let captured = self.take_captured(Ghost(start@), mover, target, m);
        let placed = match m.promotion {
            Some(pp) => pp,
            None => mover,
        };
        self.place(placed, m.to);
        self.remove(mover, m.from);
        let ghost pieces = *self;
        assert(pieces@.squares == start@.squares_after(m));

        self.halfmove_clock = if mover.is_pawn() || captured {
            0
        } else {
            ticked
        };
        if mover == PieceType::WP && from_rank == 1 && to_rank == 3 {
            self.en_passent = Some(1u64 << (16 + from_file));
            proof {
                lemma_mask_index((16 + from_file) as u64);
            }
        } else if mover == PieceType::BP && from_rank == 6 && to_rank == 4 {
            self.en_passent = Some(1u64 << (40 + from_file));
            proof {
                lemma_mask_index((40 + from_file) as u64);
            }
        } else {
            self.en_passent = None;
        }
        self.update_rights(Ghost(start@), mover, target, m);
        proof {
            lemma_same_pieces(pieces, *self);
        }
    }

    /// The board with the turn handed over.
    pub open spec fn turned(self) -> Board {
        Board {
            is_w_move: !self.is_w_move,
            fullmove_clock: if self.is_w_move {
                self.fullmove_clock
            } else {
                (self.fullmove_clock + 1) as u32
            },
            ..self
        }
    }

    /// Whether both kings stand on the board.
    pub fn has_both_kings(&self) -> (r: bool)
        requires
            self.wf(),
        ensures
            r == crate::move_gen::has_kings(self@),
    {
        proof {
            let p = self@;
            if self.w_k_bb != 0 {
                let k = u64_trailing_zeros(self.w_k_bb) as u64;
                vstd::std_specs::bits::axiom_u64_trailing_zeros(self.w_k_bb);
                crate::bits::lemma_shift_test(self.w_k_bb, k);
                lemma_bitboard_squares(*self, PieceType::WK, k);
                assert(p.at(k) == Some(PieceType::WK));
            } else {
                crate::bits::lemma_empty();
                assert forall|s: u64| s < 64 implies p.at(s) != Some(PieceType::WK) by {
                    lemma_bitboard_squares(*self, PieceType::WK, s);
                }
            }
            if self.b_k_bb != 0 {
                let k = u64_trailing_zeros(self.b_k_bb) as u64;
                vstd::std_specs::bits::axiom_u64_trailing_zeros(self.b_k_bb);
                crate::bits::lemma_shift_test(self.b_k_bb, k);
                lemma_bitboard_squares(*self, PieceType::BK, k);
                assert(p.at(k) == Some(PieceType::BK));
            } else {
                crate::bits::lemma_empty();
                assert forall|s: u64| s < 64 implies p.at(s) != Some(PieceType::BK) by {
                    lemma_bitboard_squares(*self, PieceType::BK, s);
                }
            }
        }
        self.w_k_bb != 0 && self.b_k_bb != 0
    }

    /// Hands the turn over: the other side is to move, and the fullmove
    /// number advances after Black's move.
    pub fn pass_turn(&mut self)
        requires
            old(self).fullmove_clock < u32::MAX,
        ensures
            final(self)@ == old(self)@.passed(),
            final(self).wf() == old(self).wf(),
            *final(self) == old(self).turned(),
    {
        if self.is_w_move {
            self.is_w_move = false;
        } else {
            self.is_w_move = true;
            self.fullmove_clock = self.fullmove_clock + 1;
        }
        proof {
            lemma_same_pieces(*old(self), *self);
        }
    }
}

/// The letter of a file.
pub open spec fn file_char(file: u64) -> char {
    if file == 0 {
        'a'
    } else if file == 1 {
        'b'
    } else if file == 2 {
        'c'
    } else if file == 3 {
        'd'
    } else if file == 4 {
        'e'
    } else if file == 5 {
        'f'
    } else if file == 6 {
        'g'
    } else {
        'h'
    }
}

/// The digit of a rank.
pub open spec fn rank_char(rank: u64) -> char {
    if rank == 0 {
        '1'
    } else if rank == 1 {
        '2'
    } else if rank == 2 {
        '3'
    } else if rank == 3 {
        '4'
    } else if rank == 4 {
        '5'
    } else if rank == 5 {
        '6'
    } else if rank == 6 {
        '7'
    } else {
        '8'
    }
}

/// The letter of a file.
pub fn file_letter(file: u64) -> (c: char)
    ensures
        c == file_char(file),
        crate::text::is_glyph(c),
{
    if file == 0 {
        'a'
    } else if file == 1 {
        'b'
    } else if file == 2 {
        'c'
    } else if file == 3 {
        'd'
    } else if file == 4 {
        'e'
    } else if file == 5 {
        'f'
    } else if file == 6 {
        'g'
    } else {
        'h'
    }
}

/// The digit of a rank.
pub fn rank_digit(rank: u64) -> (c: char)
    ensures
        c == rank_char(rank),
        crate::text::is_glyph(c),
{
    if rank == 0 {
        '1'
    } else if rank == 1 {
        '2'
    } else if rank == 2 {
        '3'
    } else if rank == 3 {
        '4'
    } else if rank == 4 {
        '5'
    } else if rank == 5 {
        '6'
    } else if rank == 6 {
        '7'
    } else {
        '8'
    }
}

/// The file that a letter from `a` to `h` names.
pub open spec fn file_of_char(c: char) -> Option<u64> {
    if c == 'a' {
        Some(0)
    } else if c == 'b' {
        Some(1)
    } else if c == 'c' {
        Some(2)
    } else if c == 'd' {
        Some(3)
    } else if c == 'e' {
        Some(4)
    } else if c == 'f' {
        Some(5)
    } else if c == 'g' {
        Some(6)
    } else if c == 'h' {
        Some(7)
    } else {
        None
    }
}

/// The rank that a digit from `1` to `8` names.
pub open spec fn rank_of_char(c: char) -> Option<u64> {
    if c == '1' {
        Some(0)
    } else if c == '2' {
        Some(1)
    } else if c == '3' {
        Some(2)
    } else if c == '4' {
        Some(3)
    } else if c == '5' {
        Some(4)
    } else if c == '6' {
        Some(5)
    } else if c == '7' {
        Some(6)
    } else if c == '8' {
        Some(7)
    } else {
        None
    }
}

/// The piece that a promotion letter names. A lower-case letter names a
/// piece of the side that moves, an upper-case letter a white piece.
pub open spec fn promotion_of_char(c: char, white: bool) -> Option<PieceType> {
    if c == 'N' {
        Some(PieceType::WN)
    } else if c == 'B' {
        Some(PieceType::WB)
    } else if c == 'R' {
        Some(PieceType::WR)
    } else if c == 'Q' {
        Some(PieceType::WQ)
    } else if c == 'n' {
        Some(if white { PieceType::WN } else { PieceType::BN })
    } else if c == 'b' {
        Some(if white { PieceType::WB } else { PieceType::BB })
    } else if c == 'r' {
        Some(if white { PieceType::WR } else { PieceType::BR })
    } else if c == 'q' {
        Some(if white { PieceType::WQ } else { PieceType::BQ })
    } else {
        None
    }
}

/// The square that a file letter and a rank digit name.
pub open spec fn square_of_chars(file: char, rank: char) -> Option<u64> {
    match (file_of_char(file), rank_of_char(rank)) {
        (Some(f), Some(r)) => Some((r * 8 + f) as u64),
        _ => None,
    }
}

/// The move that a string in long algebraic notation names for the side
/// `white`: two squares and, for a promotion, a fifth letter.
pub open spec fn read_move(s: Seq<char>, white: bool) -> Option<Move> {
    if s.len() != 4 && s.len() != 5 {
        None
    } else {
        match (square_of_chars(s[0], s[1]), square_of_chars(s[2], s[3])) {
            (Some(from), Some(to)) => if s.len() == 4 {
                Some(Move { from, to, promotion: None })
            } else {
                match promotion_of_char(s[4], white) {
                    Some(pp) => Some(Move { from, to, promotion: Some(pp) }),
                    None => None,
                }
            },
            _ => None,
        }
    }
}

fn file_from_char(c: char) -> (r: Option<u64>)
    ensures
        r == file_of_char(c),
        r matches Some(f) ==> f < 8,
{
    if c == 'a' {
        Some(0)
    } else if c == 'b' {
        Some(1)
    } else if c == 'c' {
        Some(2)
    } else if c == 'd' {
        Some(3)
    } else if c == 'e' {
        Some(4)
    } else if c == 'f' {
        Some(5)
    } else if c == 'g' {
        Some(6)
    } else if c == 'h' {
        Some(7)
    } else {
        None
    }
}

fn rank_from_char(c: char) -> (r: Option<u64>)
    ensures
        r == rank_of_char(c),
        r matches Some(k) ==> k < 8,
{
    if c == '1' {
        Some(0)
    } else if c == '2' {
        Some(1)
    } else if c == '3' {
        Some(2)
    } else if c == '4' {
        Some(3)
    } else if c == '5' {
        Some(4)
    } else if c == '6' {
        Some(5)
    } else if c == '7' {
        Some(6)
    } else if c == '8' {
        Some(7)
    } else {
        None
    }
}

fn promotion_from_char(c: char, white: bool) -> (r: Option<PieceType>)
    ensures
        r == promotion_of_char(c, white),
        r matches Some(pp) ==> promotable(pp),
{
    if c == 'N' {
        Some(PieceType::WN)
    } else if c == 'B' {
        Some(PieceType::WB)
    } else if c == 'R' {
        Some(PieceType::WR)
    } else if c == 'Q' {
        Some(PieceType::WQ)
    } else if c == 'n' {
        Some(if white { PieceType::WN } else { PieceType::BN })
    } else if c == 'b' {
        Some(if white { PieceType::WB } else { PieceType::BB })
    } else if c == 'r' {
        Some(if white { PieceType::WR } else { PieceType::BR })
    } else if c == 'q' {
        Some(if white { PieceType::WQ } else { PieceType::BQ })
    } else {
        None
    }
}

pub fn square_from_chars(file: char, rank: char) -> (r: Option<u64>)
    ensures
        r == square_of_chars(file, rank),
        r matches Some(sq) ==> sq < 64,
{
    match (file_from_char(file), rank_from_char(rank)) {
        (Some(f), Some(k)) => Some(k * 8 + f),
        _ => None,
    }
}

/// Reads a move in long algebraic notation for the side `white`.
pub fn parse_move(mov: &str, white: bool) -> (r: Option<Move>)
    ensures
        r == read_move(mov@, white),
        r matches Some(m) ==> m.from < 64 && m.to < 64,
{
    let n = mov.unicode_len();
    if n != 4 && n != 5 {
        return None;
    }
    let from = square_from_chars(mov.get_char(0), mov.get_char(1));
    let to = square_from_chars(mov.get_char(2), mov.get_char(3));
    match (from, to) {
        (Some(from), Some(to)) => {
            if n == 4 {
                Some(Move { from, to, promotion: None })
            } else {
                match promotion_from_char(mov.get_char(4), white) {
                    Some(pp) => Some(Move { from, to, promotion: Some(pp) }),
                    None => None,
                }
            }
        },
        _ => None,
    }
}

impl Board {
    /// Whether the move can be played on this position.
    pub fn admits(&self, m: Move) -> (ok: bool)
        requires
            self.wf(),
        ensures
            ok == self@.admits(m),
    {
        if m.from >= 64 || m.to >= 64 || m.from == m.to {
            return false;
        }
        if self.halfmove_clock == u32::MAX || self.fullmove_clock == u32::MAX {
            return false;
        }
        let mover = match self.piece_on(m.from) {
            Some(p) => p,
            None => {
                return false;
            },
        };
        if mover.is_white() != self.is_w_move {
            return false;
        }
        match m.promotion {
            Some(pp) => {
                if !mover.is_pawn() || pp.is_pawn() || pp.is_king() {
                    return false;
                }
            },
            None => {},
        }
        let landing: Option<u64> = if mover == PieceType::WK && m.from == 4 && m.to == 6 {
            Some(5)
        } else if mover == PieceType::WK && m.from == 4 && m.to == 2 {
            Some(3)
        } else if mover == PieceType::BK && m.from == 60 && m.to == 62 {
            Some(61)
        } else if mover == PieceType::BK && m.from == 60 && m.to == 58 {
            Some(59)
        } else {
            None
        };
        match landing {
            Some(l) => {
                if self.piece_on(l).is_some() {
                    return false;
                }
            },
            None => {},
        }
        if mover.is_pawn() && self.piece_on(m.to).is_none() && m.to % 8 != m.from % 8 {
            if mover.is_white() {
                m.to >= 8
            } else {
                m.to < 56
            }
        } else {
            true
        }
    }

    /// Plays a move given in long algebraic notation, such as `e2e4` or
    /// `e7e8q`: the pieces move, and the turn passes to the other side.
    pub fn do_move(&mut self, mov: &str)
        requires
            old(self).wf(),
            read_move(mov@, old(self).is_w_move) matches Some(m) && old(self)@.admits(m),
        ensures
            final(self).wf(),
            final(self)@ == old(self)@.apply(read_move(mov@, old(self).is_w_move).unwrap()),
    {
        match parse_move(mov, self.is_w_move) {
            Some(m) => {
                self.make_move(m);
                self.pass_turn();
            },
            None => {},
        }
    }

    /// Plays a move given in long algebraic notation if the position admits
    /// it, and says whether it did; the position is unchanged otherwise.
    pub fn try_move(&mut self, mov: &str) -> (played: bool)
        requires
            old(self).wf(),
        ensures
            final(self).wf(),
            played == (read_move(mov@, old(self).is_w_move) matches Some(m) && old(self)@.admits(m)),
            played ==> final(self)@ == old(self)@.apply(
                read_move(mov@, old(self).is_w_move).unwrap(),
            ),
            !played ==> *final(self) == *old(self),
    {
        match parse_move(mov, self.is_w_move) {
            Some(m) => {
                if self.admits(m) {
                    self.make_move(m);
                    self.pass_turn();
                    true
                } else {
                    false
                }
            },
            None => false,
        }
    }
}

/// After a pawn's double push the en-passant target is the square the pawn
/// skipped; after any other move there is none.
pub proof fn lemma_en_passant_after_move(p: Position, m: Move)
    requires
        p.squares.len() == 64,
        p.admits(m),
    ensures
        p.double_push(m) ==> p.apply(m).en_passant == Some(
            if p.white_to_move {
                (16 + file_of(m.from)) as u64
            } else {
                (40 + file_of(m.from)) as u64
            },
        ),
        !p.double_push(m) ==> p.apply(m).en_passant is None,
{
}

/// The halfmove clock is zero after a pawn's move or a capture, and one
/// more than before after any other move.
pub proof fn lemma_halfmove_clock_after_move(p: Position, m: Move)
    requires
        p.squares.len() == 64,
        p.admits(m),
    ensures
        p.at(m.from).unwrap().is_pawn() || p.captures(m) ==> p.apply(m).halfmove_clock == 0,
        !(p.at(m.from).unwrap().is_pawn() || p.captures(m)) ==> p.apply(m).halfmove_clock
            == p.halfmove_clock + 1,
{
}

/// The fullmove number goes up by one when Black has moved, and only then.
pub proof fn lemma_fullmove_number_after_move(p: Position, m: Move)
    requires
        p.squares.len() == 64,
        p.admits(m),
    ensures
        !p.white_to_move ==> p.apply(m).fullmove_number == p.fullmove_number + 1,
        p.white_to_move ==> p.apply(m).fullmove_number == p.fullmove_number,
        p.apply(m).white_to_move == !p.white_to_move,
{
}

/// A move never gives a castling right back.
pub proof fn lemma_castling_rights_never_return(p: Position, m: Move)
    requires
        p.squares.len() == 64,
        p.admits(m),
    ensures
        p.apply(m).white_kingside ==> p.white_kingside,
        p.apply(m).white_queenside ==> p.white_queenside,
        p.apply(m).black_kingside ==> p.black_kingside,
        p.apply(m).black_queenside ==> p.black_queenside,
{
}

/// The rights that a position holds, as a chain of moves is played from it,
/// can only shrink: each right held at the end was held at the start.
pub proof fn lemma_castling_rights_along_chain(p: Position, moves: Seq<Move>)
    requires
        p.squares.len() == 64,
        playable(p, moves),
    ensures
        play(p, moves).white_kingside ==> p.white_kingside,
        play(p, moves).white_queenside ==> p.white_queenside,
        play(p, moves).black_kingside ==> p.black_kingside,
        play(p, moves).black_queenside ==> p.black_queenside,
    decreases moves.len(),
{
    if moves.len() > 0 {
        lemma_castling_rights_never_return(p, moves[0]);
        assert(p.apply(moves[0]).squares.len() == 64);
        lemma_castling_rights_along_chain(p.apply(moves[0]), moves.subrange(1, moves.len() as int));
    }
}

/// The position after a chain of moves.
pub open spec fn play(p: Position, moves: Seq<Move>) -> Position
    decreases moves.len(),
{
    if moves.len() == 0 {
        p
    } else {
        play(p.apply(moves[0]), moves.subrange(1, moves.len() as int))
    }
}

/// Whether each move of a chain can be played in turn.
pub open spec fn playable(p: Position, moves: Seq<Move>) -> bool
    decreases moves.len(),
{
    moves.len() == 0 || (p.admits(moves[0]) && playable(
        p.apply(moves[0]),
        moves.subrange(1, moves.len() as int),
    ))
}

/// On a well-formed board, the bitboard of a piece holds exactly the
/// squares on which the piece stands.
pub proof fn lemma_bitboard_squares(b: Board, pt: PieceType, s: u64)
    requires
        b.disjoint(),
        s < 64,
    ensures
        bit(b.bb(pt), s) <==> b@.squares[s as int] == Some(pt),
{
    lemma_bits_of(b, s);
    lemma_disjoint_at(b, s);
}

/// Two well-formed boards that show the same position have the same
/// bitboard for each piece.
proof fn lemma_same_bitboard(a: Board, b: Board, pt: PieceType)
    requires
        a.disjoint(),
        b.disjoint(),
        a@.squares == b@.squares,
    ensures
        a.bb(pt) == b.bb(pt),
{
    assert forall|s: u64| s < 64 implies (#[trigger] bit(a.bb(pt), s) <==> bit(b.bb(pt), s)) by {
        lemma_bitboard_squares(a, pt, s);
        lemma_bitboard_squares(b, pt, s);
    }
    crate::bits::lemma_extensional(a.bb(pt), b.bb(pt));
}

/// A well-formed board is determined by the position it shows.
pub proof fn lemma_board_unique(a: Board, b: Board)
    requires
        a.wf(),
        b.wf(),
        a@ == b@,
    ensures
        a == b,
{
    lemma_same_bitboard(a, b, PieceType::WP);
    lemma_same_bitboard(a, b, PieceType::WN);
    lemma_same_bitboard(a, b, PieceType::WB);
    lemma_same_bitboard(a, b, PieceType::WR);
    lemma_same_bitboard(a, b, PieceType::WQ);
    lemma_same_bitboard(a, b, PieceType::WK);
    lemma_same_bitboard(a, b, PieceType::BP);
    lemma_same_bitboard(a, b, PieceType::BN);
    lemma_same_bitboard(a, b, PieceType::BB);
    lemma_same_bitboard(a, b, PieceType::BR);
    lemma_same_bitboard(a, b, PieceType::BQ);
    lemma_same_bitboard(a, b, PieceType::BK);
}

/// The bitboard of a side holds exactly the squares on which a piece of
/// that side stands.
pub proof fn lemma_side_squares(b: Board, s: u64)
    requires
        b.disjoint(),
        s < 64,
    ensures
        bit(b.spec_white(), s) <==> (b@.squares[s as int] matches Some(p) && p.is_white()),
        bit(b.spec_black(), s) <==> (b@.squares[s as int] matches Some(p) && !p.is_white()),
        bit(b.spec_white() | b.spec_black(), s) <==> b@.squares[s as int] is Some,
{
    lemma_bits_of(b, s);
    lemma_disjoint_at(b, s);
    lemma_union(b.w_p_bb, b.w_n_bb);
    lemma_union(b.w_p_bb | b.w_n_bb, b.w_b_bb);
    lemma_union(b.w_p_bb | b.w_n_bb | b.w_b_bb, b.w_r_bb);
    lemma_union(b.w_p_bb | b.w_n_bb | b.w_b_bb | b.w_r_bb, b.w_q_bb);
    lemma_union(b.w_p_bb | b.w_n_bb | b.w_b_bb | b.w_r_bb | b.w_q_bb, b.w_k_bb);
    lemma_union(b.b_p_bb, b.b_n_bb);
    lemma_union(b.b_p_bb | b.b_n_bb, b.b_b_bb);
    lemma_union(b.b_p_bb | b.b_n_bb | b.b_b_bb, b.b_r_bb);
    lemma_union(b.b_p_bb | b.b_n_bb | b.b_b_bb | b.b_r_bb, b.b_q_bb);
    lemma_union(b.b_p_bb | b.b_n_bb | b.b_b_bb | b.b_r_bb | b.b_q_bb, b.b_k_bb);
    lemma_union(b.spec_white(), b.spec_black());
}

/// On a well-formed board, the bitboards of two different pieces share no
/// square.
pub proof fn lemma_pieces_disjoint(b: Board, p: PieceType, q: PieceType)
    requires
        b.wf(),
        p != q,
    ensures
        b.bb(p) & b.bb(q) == 0,
{
    let x = b.bb(p) & b.bb(q);
    crate::bits::lemma_intersection(b.bb(p), b.bb(q));
    assert forall|s: u64| s < 64 implies !#[trigger] bit(x, s) by {
        lemma_bitboard_squares(b, p, s);
        lemma_bitboard_squares(b, q, s);
    }
    crate::bits::lemma_extensional_zero(x);
}

/// The number of squares among the first `k` that hold the piece `pt`.
pub open spec fn count_piece(squares: Seq<Option<PieceType>>, pt: PieceType, k: nat) -> nat
    decreases k,
{
    if k == 0 {
        0
    } else {
        count_piece(squares, pt, (k - 1) as nat) + if squares[k - 1] == Some(pt) {
            1nat
        } else {
            0nat
        }
    }
}

/// On a well-formed board, the bitboard of a piece has as many squares as
/// the position has squares with that piece.
pub proof fn lemma_popcount_squares(b: Board, pt: PieceType, k: nat)
    requires
        b.wf(),
        k <= 64,
    ensures
        crate::bits::count_below(b.bb(pt), k) == count_piece(b@.squares, pt, k),
    decreases k,
{
    if k > 0 {
        lemma_popcount_squares(b, pt, (k - 1) as nat);
        lemma_bitboard_squares(b, pt, (k - 1) as u64);
    }
}

/// Changing one square changes the count of a piece by what the square
/// loses and gains.
pub proof fn lemma_count_update(
    squares: Seq<Option<PieceType>>,
    pt: PieceType,
    k: nat,
    i: int,
    v: Option<PieceType>,
)
    requires
        k <= squares.len(),
        0 <= i < squares.len(),
    ensures
        count_piece(squares.update(i, v), pt, k) == count_piece(squares, pt, k) + (if i < k && v
            == Some(pt) {
            1int
        } else {
            0int
        }) - (if i < k && squares[i] == Some(pt) {
            1int
        } else {
            0int
        }),
    decreases k,
{
    if k > 0 {
        lemma_count_update(squares, pt, (k - 1) as nat, i, v);
    }
}

/// A move that takes no king leaves each side with as many kings as it
/// had: a position with one king each is followed by such a position.
pub proof fn lemma_king_count_after_move(p: Position, m: Move, king: PieceType)
    requires
        p.squares.len() == 64,
        p.admits(m),
        king.is_king(),
        !(p.at(m.to) matches Some(k) && k.is_king()),
    ensures
        count_piece(p.apply(m).squares, king, 64) == count_piece(p.squares, king, 64),
{
    let mover = p.at(m.from).unwrap();
    let s0 = p.squares;
    let s1 = p.hopped(m);
    match rook_hop(mover, m) {
        Some(hop) => {
            let mid = if p.at(hop.corner) == Some(hop.rook) {
                s0.update(hop.corner as int, None)
            } else {
                s0
            };
            lemma_count_update(s0, king, 64, hop.corner as int, None);
            lemma_count_update(mid, king, 64, hop.landing as int, Some(hop.rook));
        },
        None => {},
    }
    assert(count_piece(s1, king, 64) == count_piece(s0, king, 64));
    let s2 = p.taken(m);
    if p.takes_en_passant(m) {
        lemma_count_update(s1, king, 64, p.victim_square(m), None);
    } else {
        lemma_count_update(s1, king, 64, m.to as int, None);
    }
    assert(count_piece(s2, king, 64) == count_piece(s1, king, 64));
    let placed = match m.promotion {
        Some(pp) => pp,
        None => mover,
    };
    let s3 = s2.update(m.to as int, Some(placed));
    lemma_count_update(s2, king, 64, m.to as int, Some(placed));
    lemma_count_update(s3, king, 64, m.from as int, None);
    assert(s2[m.to as int] != Some(king));
    assert(s3[m.from as int] == Some(mover));
}

/// A side that has one king before a move that takes no king has one king
/// after it: the king's bitboard of a board that shows the position after
/// the move holds as many squares as it held before.
pub proof fn lemma_one_king_after_move(before: Board, after: Board, m: Move, king: PieceType)
    requires
        before.wf(),
        after.wf(),
        before@.admits(m),
        after@.squares == before@.apply(m).squares,
        king.is_king(),
        !(before@.at(m.to) matches Some(k) && k.is_king()),
    ensures
        crate::bits::popcount(after.bb(king)) == crate::bits::popcount(before.bb(king)),
{
    lemma_king_count_after_move(before@, m, king);
    lemma_popcount_squares(before, king, 64);
    lemma_popcount_squares(after, king, 64);
}

/// Two boards with the same twelve bitboards.
pub open spec fn same_pieces(a: Board, b: Board) -> bool {
    &&& a.w_p_bb == b.w_p_bb
    &&& a.w_n_bb == b.w_n_bb
    &&& a.w_b_bb == b.w_b_bb
    &&& a.w_r_bb == b.w_r_bb
    &&& a.w_q_bb == b.w_q_bb
    &&& a.w_k_bb == b.w_k_bb
    &&& a.b_p_bb == b.b_p_bb
    &&& a.b_n_bb == b.b_n_bb
    &&& a.b_b_bb == b.b_b_bb
    &&& a.b_r_bb == b.b_r_bb
    &&& a.b_q_bb == b.b_q_bb
    &&& a.b_k_bb == b.b_k_bb
}

/// Boards with the same bitboards hold the same piece on every square.
pub proof fn lemma_same_pieces(a: Board, b: Board)
    requires
        same_pieces(a, b),
    ensures
        a@.squares == b@.squares,
        a.disjoint() == b.disjoint(),
{
    reveal(Board::disjoint);
    reveal(Board::piece_meeting);
    assert(a@.squares =~= b@.squares);
    assert forall|pt: PieceType| #[trigger] a.bb(pt) == b.bb(pt) by {}
    if a.disjoint() {
        assert forall|pt: PieceType, sq: u64| sq < 64 && #[trigger] bit(b.bb(pt), sq) implies
            b.piece_at(sq) == Some(pt) by {
            assert(bit(a.bb(pt), sq));
        }
    }
    if b.disjoint() {
        assert forall|pt: PieceType, sq: u64| sq < 64 && #[trigger] bit(a.bb(pt), sq) implies
            a.piece_at(sq) == Some(pt) by {
            assert(bit(b.bb(pt), sq));
        }
    }
}

/// Two boards whose bitboards agree, but perhaps for that of `pt`.
pub open spec fn same_except(a: Board, b: Board, pt: PieceType) -> bool {
    &&& (pt == PieceType::WP || a.w_p_bb == b.w_p_bb)
    &&& (pt == PieceType::WN || a.w_n_bb == b.w_n_bb)
    &&& (pt == PieceType::WB || a.w_b_bb == b.w_b_bb)
    &&& (pt == PieceType::WR || a.w_r_bb == b.w_r_bb)
    &&& (pt == PieceType::WQ || a.w_q_bb == b.w_q_bb)
    &&& (pt == PieceType::WK || a.w_k_bb == b.w_k_bb)
    &&& (pt == PieceType::BP || a.b_p_bb == b.b_p_bb)
    &&& (pt == PieceType::BN || a.b_n_bb == b.b_n_bb)
    &&& (pt == PieceType::BB || a.b_b_bb == b.b_b_bb)
    &&& (pt == PieceType::BR || a.b_r_bb == b.b_r_bb)
    &&& (pt == PieceType::BQ || a.b_q_bb == b.b_q_bb)
    &&& (pt == PieceType::BK || a.b_k_bb == b.b_k_bb)
}

/// On a board where no square holds two pieces, a bitboard that holds a
/// square names the piece on it.
pub proof fn lemma_disjoint_at(b: Board, s: u64)
    requires
        b.disjoint(),
        s < 64,
    ensures
        bit(b.w_p_bb, s) ==> b.piece_at(s) == Some(PieceType::WP),
        bit(b.w_n_bb, s) ==> b.piece_at(s) == Some(PieceType::WN),
        bit(b.w_b_bb, s) ==> b.piece_at(s) == Some(PieceType::WB),
        bit(b.w_r_bb, s) ==> b.piece_at(s) == Some(PieceType::WR),
        bit(b.w_q_bb, s) ==> b.piece_at(s) == Some(PieceType::WQ),
        bit(b.w_k_bb, s) ==> b.piece_at(s) == Some(PieceType::WK),
        bit(b.b_p_bb, s) ==> b.piece_at(s) == Some(PieceType::BP),
        bit(b.b_n_bb, s) ==> b.piece_at(s) == Some(PieceType::BN),
        bit(b.b_b_bb, s) ==> b.piece_at(s) == Some(PieceType::BB),
        bit(b.b_r_bb, s) ==> b.piece_at(s) == Some(PieceType::BR),
        bit(b.b_q_bb, s) ==> b.piece_at(s) == Some(PieceType::BQ),
        bit(b.b_k_bb, s) ==> b.piece_at(s) == Some(PieceType::BK),
{
    reveal(Board::disjoint);
    assert(bit(b.bb(PieceType::WP), s) ==> b.piece_at(s) == Some(PieceType::WP));
    assert(bit(b.bb(PieceType::WN), s) ==> b.piece_at(s) == Some(PieceType::WN));
    assert(bit(b.bb(PieceType::WB), s) ==> b.piece_at(s) == Some(PieceType::WB));
    assert(bit(b.bb(PieceType::WR), s) ==> b.piece_at(s) == Some(PieceType::WR));
    assert(bit(b.bb(PieceType::WQ), s) ==> b.piece_at(s) == Some(PieceType::WQ));
    assert(bit(b.bb(PieceType::WK), s) ==> b.piece_at(s) == Some(PieceType::WK));
    assert(bit(b.bb(PieceType::BP), s) ==> b.piece_at(s) == Some(PieceType::BP));
    assert(bit(b.bb(PieceType::BN), s) ==> b.piece_at(s) == Some(PieceType::BN));
    assert(bit(b.bb(PieceType::BB), s) ==> b.piece_at(s) == Some(PieceType::BB));
    assert(bit(b.bb(PieceType::BR), s) ==> b.piece_at(s) == Some(PieceType::BR));
    assert(bit(b.bb(PieceType::BQ), s) ==> b.piece_at(s) == Some(PieceType::BQ));
    assert(bit(b.bb(PieceType::BK), s) ==> b.piece_at(s) == Some(PieceType::BK));
}

/// How one square reads after `pt` was taken off `sq`.
proof fn lemma_removed_square(before: Board, after: Board, pt: PieceType, sq: u64, s: u64)
    requires
        sq < 64,
        s < 64,
        before.disjoint(),
        after.bb(pt) == before.bb(pt) & !square_mask(sq),
        same_except(before, after, pt),
    ensures
        after.piece_at(s) == (if s == sq && before.piece_at(sq) == Some(pt) {
            None
        } else {
            before.piece_at(s)
        }),
{
    lemma_difference(before.bb(pt), square_mask(sq));
    lemma_mask(sq);
    lemma_bits_of(before, s);
    lemma_bits_of(after, s);
    lemma_disjoint_at(before, s);
    assert(bit(after.bb(pt), s) <==> bit(before.bb(pt), s) && s != sq);
}

/// How one square reads after `pt` was put on the empty square `sq`.
proof fn lemma_placed_square(before: Board, after: Board, pt: PieceType, sq: u64, s: u64)
    requires
        sq < 64,
        s < 64,
        before.disjoint(),
        before.piece_at(sq) is None,
        after.bb(pt) == before.bb(pt) | square_mask(sq),
        same_except(before, after, pt),
    ensures
        after.piece_at(s) == (if s == sq {
            Some(pt)
        } else {
            before.piece_at(s)
        }),
{
    lemma_union(before.bb(pt), square_mask(sq));
    lemma_mask(sq);
    lemma_bits_of(before, s);
    lemma_bits_of(after, s);
    lemma_bits_of(before, sq);
    lemma_disjoint_at(before, s);
    assert(bit(after.bb(pt), s) <==> bit(before.bb(pt), s) || s == sq);
}

/// The piece on a square is the first whose bitboard holds the square.
pub proof fn lemma_bits_of(b: Board, s: u64)
    ensures
        b.piece_at(s) == (if bit(b.w_p_bb, s) {
            Some(PieceType::WP)
        } else if bit(b.w_n_bb, s) {
            Some(PieceType::WN)
        } else if bit(b.w_b_bb, s) {
            Some(PieceType::WB)
        } else if bit(b.w_r_bb, s) {
            Some(PieceType::WR)
        } else if bit(b.w_q_bb, s) {
            Some(PieceType::WQ)
        } else if bit(b.w_k_bb, s) {
            Some(PieceType::WK)
        } else if bit(b.b_p_bb, s) {
            Some(PieceType::BP)
        } else if bit(b.b_n_bb, s) {
            Some(PieceType::BN)
        } else if bit(b.b_b_bb, s) {
            Some(PieceType::BB)
        } else if bit(b.b_r_bb, s) {
            Some(PieceType::BR)
        } else if bit(b.b_q_bb, s) {
            Some(PieceType::BQ)
        } else if bit(b.b_k_bb, s) {
            Some(PieceType::BK)
        } else {
            None
        }),
        forall|p: PieceType| b.piece_at(s) == Some(p) ==> bit(#[trigger] b.bb(p), s),
{
    reveal(Board::piece_meeting);
}

} // verus!
