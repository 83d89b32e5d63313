//! Forsyth-Edwards notation: reading a position from its six fields and
//! writing it back.

use crate::bits::{bit, lemma_empty};
use crate::board::{
    Board, PieceType, Position, file_char, file_letter, lemma_bits_of, lemma_mask_index,
    rank_char, rank_digit, square_of_chars,
};
use crate::text::{
    decimal, digit_char, digit_value, is_glyph, number, parse_number, push_glyph, push_number,
    split_words, str_eq, views, words,
};
use vstd::prelude::*;
use vstd::std_specs::bits::axiom_u64_trailing_zeros;

verus! {

/// The piece that a letter names: upper case for White, lower case for
/// Black.
pub open spec fn piece_of_char(c: char) -> Option<PieceType> {
    if c == 'P' {
        Some(PieceType::WP)
    } else if c == 'N' {
        Some(PieceType::WN)
    } else if c == 'B' {
        Some(PieceType::WB)
    } else if c == 'R' {
        Some(PieceType::WR)
    } else if c == 'Q' {
        Some(PieceType::WQ)
    } else if c == 'K' {
        Some(PieceType::WK)
    } else if c == 'p' {
        Some(PieceType::BP)
    } else if c == 'n' {
        Some(PieceType::BN)
    } else if c == 'b' {
        Some(PieceType::BB)
    } else if c == 'r' {
        Some(PieceType::BR)
    } else if c == 'q' {
        Some(PieceType::BQ)
    } else if c == 'k' {
        Some(PieceType::BK)
    } else {
        None
    }
}

/// The letter of a piece.
pub open spec fn piece_char(pt: PieceType) -> char {
    match pt {
        PieceType::WP => 'P',
        PieceType::WN => 'N',
        PieceType::WB => 'B',
        PieceType::WR => 'R',
        PieceType::WQ => 'Q',
        PieceType::WK => 'K',
        PieceType::BP => 'p',
        PieceType::BN => 'n',
        PieceType::BB => 'b',
        PieceType::BR => 'r',
        PieceType::BQ => 'q',
        PieceType::BK => 'k',
    }
}

/// Where the reading of a piece placement stands: the next square to fill,
/// by rank and file, and the squares filled so far.
pub struct Cursor {
    pub rank: int,
    pub file: int,
    pub squares: Seq<Option<PieceType>>,
}

/// The board with no piece on it.
pub open spec fn empty_squares() -> Seq<Option<PieceType>> {
    Seq::new(64, |i: int| None)
}

/// Reads one character of a piece placement: a slash goes to the start of
/// the rank below, a digit from 1 to 8 skips as many files, a piece letter
/// fills the next square. Nothing may reach beyond the h-file or below the
/// first rank, and no other character is read.
pub open spec fn read_placement_char(cur: Cursor, c: char) -> Option<Cursor> {
    if c == '/' {
        if cur.rank > 0 {
            Some(Cursor { rank: cur.rank - 1, file: 0, squares: cur.squares })
        } else {
            None
        }
    } else {
        match (digit_value(c), piece_of_char(c)) {
            (Some(d), _) => if 1 <= d <= 8 && cur.file + d <= 8 {
                Some(Cursor { file: cur.file + d, ..cur })
            } else {
                None
            },
            (None, Some(pt)) => if cur.file < 8 {
                Some(
                    Cursor {
                        file: cur.file + 1,
                        squares: cur.squares.update(cur.rank * 8 + cur.file, Some(pt)),
                        ..cur
                    },
                )
            } else {
                None
            },
            (None, None) => None,
        }
    }
}

/// Reads a piece placement from its character `i` on.
pub open spec fn read_placement_from(s: Seq<char>, i: int, cur: Cursor) -> Option<Cursor>
    decreases s.len() - i,
{
    if i < 0 || i >= s.len() {
        Some(cur)
    } else {
        match read_placement_char(cur, s[i]) {
            Some(next) => read_placement_from(s, i + 1, next),
            None => None,
        }
    }
}

/// The squares that a piece placement describes, rank 8 first and each
/// rank from the a-file on.
pub open spec fn read_placement(s: Seq<char>) -> Option<Seq<Option<PieceType>>> {
    match read_placement_from(s, 0, Cursor { rank: 7, file: 0, squares: empty_squares() }) {
        Some(cur) => Some(cur.squares),
        None => None,
    }
}

/// Whether every character of a castling field is one of `K`, `Q`, `k`,
/// `q` and `-`.
pub open spec fn castling_field(s: Seq<char>) -> bool {
    forall|i: int|
        0 <= i < s.len() ==> #[trigger] s[i] == 'K' || s[i] == 'Q' || s[i] == 'k' || s[i] == 'q'
            || s[i] == '-'
}

/// The en-passant target that a field names: none if the field is a dash,
/// a square if it is a file letter and a rank digit. The outer `None` says
/// that the field is neither.
pub open spec fn read_target(s: Seq<char>) -> Option<Option<u64>> {
    if s == seq!['-'] {
        Some(None)
    } else if s.len() == 2 {
        match square_of_chars(s[0], s[1]) {
            Some(sq) => Some(Some(sq)),
            None => None,
        }
    } else {
        None
    }
}

/// The side to move that a field names: White for `w`, Black for `b`.
pub open spec fn read_side(s: Seq<char>) -> Option<bool> {
    if s == seq!['w'] {
        Some(true)
    } else if s == seq!['b'] {
        Some(false)
    } else {
        None
    }
}

/// The position that a text in Forsyth-Edwards notation describes: six
/// fields separated by white space, for the placement of the pieces, the
/// side to move, the castling rights, the en-passant target and the two
/// clocks. `None` where the fields are not six or one of them is not as
/// it should be.
pub open spec fn read_fen(s: Seq<char>) -> Option<Position> {
    let w = words(s);
    if w.len() != 6 {
        None
    } else {
        match (
            read_placement(w[0]),
            read_side(w[1]),
            read_target(w[3]),
            number(w[4]),
            number(w[5]),
        ) {
            (
                Some(squares),
                Some(white_to_move),
                Some(en_passant),
                Some(halfmove),
                Some(fullmove),
            ) => if castling_field(w[2]) {
                Some(
                    Position {
                        squares,
                        white_to_move,
                        white_kingside: w[2].contains('K'),
                        white_queenside: w[2].contains('Q'),
                        black_kingside: w[2].contains('k'),
                        black_queenside: w[2].contains('q'),
                        en_passant,
                        halfmove_clock: halfmove as int,
                        fullmove_number: fullmove as int,
                    },
                )
            } else {
                None
            },
            _ => None,
        }
    }
}

fn piece_from_char(c: char) -> (r: Option<PieceType>)
    ensures
        r == piece_of_char(c),
{
    if c == 'P' {
        Some(PieceType::WP)
    } else if c == 'N' {
        Some(PieceType::WN)
    } else if c == 'B' {
        Some(PieceType::WB)
    } else if c == 'R' {
        Some(PieceType::WR)
    } else if c == 'Q' {
        Some(PieceType::WQ)
    } else if c == 'K' {
        Some(PieceType::WK)
    } else if c == 'p' {
        Some(PieceType::BP)
    } else if c == 'n' {
        Some(PieceType::BN)
    } else if c == 'b' {
        Some(PieceType::BB)
    } else if c == 'r' {
        Some(PieceType::BR)
    } else if c == 'q' {
        Some(PieceType::BQ)
    } else if c == 'k' {
        Some(PieceType::BK)
    } else {
        None
    }
}

fn run_from_char(c: char) -> (r: Option<u64>)
    ensures
        match r {
            Some(d) => digit_value(c) == Some(d as int) && d < 10,
            None => digit_value(c) is None,
        },
{
    if c == '0' {
        Some(0)
    } else if c == '1' {
        Some(1)
    } else if c == '2' {
        Some(2)
    } else if c == '3' {
        Some(3)
    } else if c == '4' {
        Some(4)
    } else if c == '5' {
        Some(5)
    } else if c == '6' {
        Some(6)
    } else if c == '7' {
        Some(7)
    } else if c == '8' {
        Some(8)
    } else if c == '9' {
        Some(9)
    } else {
        None
    }
}

/// The position with no piece, White to move, no rights and no target.
fn empty_board() -> (b: Board)
    ensures
        b.wf(),
        b@.squares == empty_squares(),
        b.en_passent is None,
{
    let b = Board {
        w_p_bb: 0,
        w_n_bb: 0,
        w_b_bb: 0,
        w_r_bb: 0,
        w_q_bb: 0,
        w_k_bb: 0,
        b_p_bb: 0,
        b_n_bb: 0,
        b_b_bb: 0,
        b_r_bb: 0,
        b_q_bb: 0,
        b_k_bb: 0,
        is_w_move: true,
        is_w_castle: false,
        is_w_q_castle: false,
        is_b_castle: false,
        is_b_q_castle: false,
        en_passent: None,
        halfmove_clock: 0,
        fullmove_clock: 1,
    };
    proof {
        lemma_empty();
        reveal(Board::disjoint);
        assert forall|s: u64| s < 64 implies #[trigger] b.piece_at(s) is None by {
            lemma_bits_of(b, s);
        }
        assert(b@.squares =~= empty_squares());
        assert forall|pt: PieceType, s: u64| s < 64 && #[trigger] bit(b.bb(pt), s) implies
            b.piece_at(s) == Some(pt) by {}
    }
    b
}

/// Whether the squares from the cursor on are empty.
spec fn empty_from(squares: Seq<Option<PieceType>>, rank: int, file: int) -> bool {
    forall|sq: int|
        0 <= sq < 64 && (sq / 8 < rank || (sq / 8 == rank && sq % 8 >= file)) ==> (
        #[trigger] squares[sq]) is None
}

/// Reads a piece placement onto an empty board.
fn parse_placement(field: &str) -> (r: Option<Board>)
    ensures
        match r {
            Some(b) => b.wf() && b.en_passent is None && read_placement(field@) == Some(
                b@.squares,
            ),
            None => read_placement(field@) is None,
        },
{
    let n = field.unicode_len();
    let mut b = empty_board();
    let mut rank: u64 = 7;
    let mut file: u64 = 0;
    let mut i: usize = 0;
    let ghost start = Cursor { rank: 7, file: 0, squares: empty_squares() };
    while i < n
        invariant
            i <= n,
            n == field@.len(),
            rank <= 7,
            file <= 8,
            start == (Cursor { rank: 7, file: 0, squares: empty_squares() }),
            b.disjoint(),
            b.en_passent is None,
            empty_from(b@.squares, rank as int, file as int),
            read_placement_from(
                field@,
                i as int,
                Cursor { rank: rank as int, file: file as int, squares: b@.squares },
            ) == read_placement_from(field@, 0, start),
        decreases n - i,
    {
        let c = field.get_char(i);
        let ghost cur = Cursor { rank: rank as int, file: file as int, squares: b@.squares };
        proof {
            assert(read_placement_from(field@, i as int, cur) == match read_placement_char(cur, c) {
                Some(next) => read_placement_from(field@, i + 1, next),
                None => None,
            });
        }
        if c == '/' {
            if rank == 0 {
                return None;
            }
            rank = rank - 1;
            file = 0;
        } else {
            match run_from_char(c) {
                Some(d) => {
                    if d < 1 || d > 8 || file + d > 8 {
                        return None;
                    }
                    file = file + d;
                },
                None => match piece_from_char(c) {
                    Some(pt) => {
                        if file >= 8 {
                            return None;
                        }
                        let sq: u64 = rank * 8 + file;
                        assert(b@.squares[sq as int] is None);
                        b.place(pt, sq);
                        file = file + 1;
                    },
                    None => {
                        return None;
                    },
                },
            }
        }
        i = i + 1;
    }
    Some(b)
}

/// Reads a castling field.
fn parse_castling(field: &str) -> (r: Option<(bool, bool, bool, bool)>)
    ensures
        match r {
            Some(rights) => castling_field(field@) && rights.0 == field@.contains('K') && rights.1
                == field@.contains('Q') && rights.2 == field@.contains('k') && rights.3
                == field@.contains('q'),
            None => !castling_field(field@),
        },
{
    let n = field.unicode_len();
    let mut white_k = false;
    let mut white_q = false;
    let mut black_k = false;
    let mut black_q = false;
    let mut i: usize = 0;
    while i < n
        invariant
            i <= n,
            n == field@.len(),
            castling_field(field@.take(i as int)),
            white_k == field@.take(i as int).contains('K'),
            white_q == field@.take(i as int).contains('Q'),
            black_k == field@.take(i as int).contains('k'),
            black_q == field@.take(i as int).contains('q'),
        decreases n - i,
    {
        let c = field.get_char(i);
        let ghost before = field@.take(i as int);
        let ghost after = field@.take(i + 1);
        proof {
            assert(after =~= before.push(c));
            assert(forall|x: char| after.contains(x) <==> before.contains(x) || x == c) by {
                assert forall|x: char| after.contains(x) implies before.contains(x) || x == c by {
                    let k = choose|k: int| 0 <= k < after.len() && after[k] == x;
                    if k < before.len() {
                        assert(before[k] == x);
                    }
                }
                assert forall|x: char| before.contains(x) || x == c implies after.contains(x) by {
                    if before.contains(x) {
                        let k = choose|k: int| 0 <= k < before.len() && before[k] == x;
                        assert(after[k] == x);
                    } else {
                        assert(after[i as int] == x);
                    }
                }
            }
        }
        if c == 'K' {
            white_k = true;
        } else if c == 'Q' {
            white_q = true;
        } else if c == 'k' {
            black_k = true;
        } else if c == 'q' {
            black_q = true;
        } else if c != '-' {
            proof {
                assert(field@[i as int] == c);
            }
            return None;
        }
        i = i + 1;
    }
    proof {
        assert(field@.take(n as int) =~= field@);
    }
    Some((white_k, white_q, black_k, black_q))
}

impl Board {
    /// Reads a position in Forsyth-Edwards notation, or returns `None` if
    /// the text describes none.
    pub fn from_fen(fen: &str) -> (r: Option<Board>)
        ensures
            match r {
                Some(b) => b.wf() && read_fen(fen@) == Some(b@),
                None => read_fen(fen@) is None,
            },
    {
        let fields = split_words(fen);
        if fields.len() != 6 {
            return None;
        }
        proof {
            assert(forall|k: int| 0 <= k < 6 ==> fields@[k]@ == #[trigger] words(fen@)[k]) by {
                assert(views(fields@) == words(fen@));
                assert forall|k: int| 0 <= k < 6 implies fields@[k]@ == #[trigger] words(fen@)[k] by {
                    assert(views(fields@)[k] == fields@[k]@);
                }
            }
        }
        let mut b = match parse_placement(fields[0].as_str()) {
            Some(b) => b,
            None => {
                return None;
            },
        };
        let ghost placed = b;
        let rights = match parse_castling(fields[2].as_str()) {
            Some(r) => r,
            None => {
                return None;
            },
        };
        proof {
            reveal_strlit("w");
            reveal_strlit("b");
            reveal_strlit("-");
            assert("w"@ =~= seq!['w']);
            assert("b"@ =~= seq!['b']);
            assert("-"@ =~= seq!['-']);
        }
        let side = fields[1].as_str();
        let white: bool = if str_eq(side, "w") {
            true
        } else if str_eq(side, "b") {
            false
        } else {
            return None;
        };
        let target = fields[3].as_str();
        let en_passent: Option<u64> = if str_eq(target, "-") {
            None
        } else if target.unicode_len() == 2 {
            match crate::board::square_from_chars(target.get_char(0), target.get_char(1)) {
                Some(sq) => {
                    proof {
                        lemma_mask_index(sq);
                    }
                    Some(1u64 << sq)
                },
                None => {
                    return None;
                },
            }
        } else {
            return None;
        };
        let halfmove = match parse_number(fields[4].as_str()) {
            Some(v) => v,
            None => {
                return None;
            },
        };
        let fullmove = match parse_number(fields[5].as_str()) {
            Some(v) => v,
            None => {
                return None;
            },
        };
        b.is_w_move = white;
        b.is_w_castle = rights.0;
        b.is_w_q_castle = rights.1;
        b.is_b_castle = rights.2;
        b.is_b_q_castle = rights.3;
        b.en_passent = en_passent;
        b.halfmove_clock = halfmove;
        b.fullmove_clock = fullmove;
        proof {
            crate::board::lemma_same_pieces(placed, b);
        }
        Some(b)
    }

    /// Reads a position in Forsyth-Edwards notation.
    pub fn new(fen: &str) -> (b: Board)
        requires
            read_fen(fen@) is Some,
        ensures
            b.wf(),
            Some(b@) == read_fen(fen@),
    {
        match Board::from_fen(fen) {
            Some(b) => b,
            None => empty_board(),
        }
    }
}

/// One rank of a piece placement from file `file` on, after a run of `run`
/// empty squares: a digit for each run of empty squares, a letter for each
/// piece.
pub open spec fn rank_text(squares: Seq<Option<PieceType>>, rank: int, file: int, run: int) -> Seq<
    char,
>
    decreases 8 - file,
{
    let gap = if run > 0 {
        seq![digit_char(run)]
    } else {
        Seq::empty()
    };
    if file >= 8 {
        gap
    } else {
        match squares[rank * 8 + file] {
            Some(pt) => gap.push(piece_char(pt)) + rank_text(squares, rank, file + 1, 0),
            None => rank_text(squares, rank, file + 1, run + 1),
        }
    }
}

/// The piece placement from rank `rank` down to the first, the ranks
/// separated by slashes.
pub open spec fn ranks_text(squares: Seq<Option<PieceType>>, rank: int) -> Seq<char>
    decreases rank,
{
    if rank <= 0 {
        rank_text(squares, 0, 0, 0)
    } else {
        rank_text(squares, rank, 0, 0).push('/') + ranks_text(squares, rank - 1)
    }
}

/// The castling field: the letters of the rights held, or a dash.
pub open spec fn castling_text(p: Position) -> Seq<char> {
    if !p.white_kingside && !p.white_queenside && !p.black_kingside && !p.black_queenside {
        seq!['-']
    } else {
        (if p.white_kingside {
            seq!['K']
        } else {
            Seq::empty()
        }) + (if p.white_queenside {
            seq!['Q']
        } else {
            Seq::empty()
        }) + (if p.black_kingside {
            seq!['k']
        } else {
            Seq::empty()
        }) + (if p.black_queenside {
            seq!['q']
        } else {
            Seq::empty()
        })
    }
}

/// The en-passant field: the target square, or a dash.
pub open spec fn target_text(p: Position) -> Seq<char> {
    match p.en_passant {
        Some(sq) => seq![file_char(sq % 8), rank_char(sq / 8)],
        None => seq!['-'],
    }
}

/// A position in Forsyth-Edwards notation: the six fields, separated by
/// single spaces.
pub open spec fn fen_of(p: Position) -> Seq<char> {
    ranks_text(p.squares, 7).push(' ').push(
        if p.white_to_move {
            'w'
        } else {
            'b'
        },
    ).push(' ') + castling_text(p).push(' ') + target_text(p).push(' ') + decimal(
        p.halfmove_clock as nat,
    ).push(' ') + decimal(p.fullmove_number as nat)
}

/// Appending a rank and a slash to what was written keeps the rest of the
/// placement to write.
proof fn lemma_append3(
    head: Seq<char>,
    done: Seq<char>,
    rank: Seq<char>,
    slash: char,
    rest: Seq<char>,
    out: Seq<char>,
)
    requires
        out == (head + done + rank).push(slash),
    ensures
        out == head + (done + rank.push(slash)),
        (done + rank.push(slash)) + rest == done + (rank.push(slash) + rest),
{
    assert(out =~= head + (done + rank.push(slash)));
    assert((done + rank.push(slash)) + rest =~= done + (rank.push(slash) + rest));
}

fn piece_letter(pt: PieceType) -> (c: char)
    ensures
        c == piece_char(pt),
        is_glyph(c),
{
    match pt {
        PieceType::WP => 'P',
        PieceType::WN => 'N',
        PieceType::WB => 'B',
        PieceType::WR => 'R',
        PieceType::WQ => 'Q',
        PieceType::WK => 'K',
        PieceType::BP => 'p',
        PieceType::BN => 'n',
        PieceType::BB => 'b',
        PieceType::BR => 'r',
        PieceType::BQ => 'q',
        PieceType::BK => 'k',
    }
}

impl Board {
    /// Appends one rank of the piece placement.
    fn push_rank(&self, out: &mut String, rank: u64)
        requires
            rank < 8,
        ensures
            final(out)@ == old(out)@ + rank_text(self@.squares, rank as int, 0, 0),
    {
        let mut file: u64 = 0;
        let mut run: u32 = 0;
        let ghost squares = self@.squares;
        while file < 8
            invariant
                file <= 8,
                run <= file,
                rank < 8,
                squares == self@.squares,
                out@ + rank_text(squares, rank as int, file as int, run as int) == old(out)@
                    + rank_text(squares, rank as int, 0, 0),
            decreases 8 - file,
        {
            let ghost before = out@;
            let ghost rest = rank_text(squares, rank as int, file as int + 1, 0);
            match self.piece_on(rank * 8 + file) {
                Some(pt) => {
                    if run > 0 {
                        push_number(out, run);
                    }
                    push_glyph(out, piece_letter(pt));
                    proof {
                        let gap = if run > 0 {
                            seq![digit_char(run as int)]
                        } else {
                            Seq::empty()
                        };
                        assert(decimal(run as nat) == seq![digit_char(run as int)]);
                        assert(out@ =~= before + gap.push(piece_char(pt)));
                        assert(out@ + rest =~= before + (gap.push(piece_char(pt)) + rest));
                    }
                    run = 0;
                },
                None => {
                    run = run + 1;
                },
            }
            file = file + 1;
        }
        if run > 0 {
            let ghost before = out@;
            push_number(out, run);
            proof {
                assert(decimal(run as nat) == seq![digit_char(run as int)]);
            }
        } else {
            proof {
                assert(out@ + Seq::<char>::empty() =~= out@);
            }
        }
    }

    /// Appends the piece placement.
    fn push_placement(&self, out: &mut String)
        ensures
            final(out)@ == old(out)@ + ranks_text(self@.squares, 7),
    {
        let ghost squares = self@.squares;
        let mut left: u64 = 8;
        let ghost mut done: Seq<char> = Seq::empty();
        proof {
            assert(out@ =~= old(out)@ + done);
            assert(done + ranks_text(squares, 7) =~= ranks_text(squares, 7));
        }
        while left > 1
            invariant
                1 <= left <= 8,
                squares == self@.squares,
                out@ == old(out)@ + done,
                done + ranks_text(squares, left - 1) == ranks_text(squares, 7),
            decreases left,
        {
            let ghost rank = rank_text(squares, left - 1, 0, 0);
            let ghost rest = ranks_text(squares, left - 2);
            self.push_rank(out, left - 1);
            push_glyph(out, '/');
            proof {
                assert(ranks_text(squares, left - 1) == rank.push('/') + rest);
                lemma_append3(old(out)@, done, rank, '/', rest, out@);
                done = done + rank.push('/');
            }
            left = left - 1;
        }
        self.push_rank(out, 0);
        proof {
            let rank = rank_text(squares, 0, 0, 0);
            assert(ranks_text(squares, 0) == rank);
            assert(out@ =~= old(out)@ + (done + rank));
        }
    }

    /// Appends the castling field.
    fn push_rights(&self, out: &mut String)
        ensures
            final(out)@ == old(out)@ + castling_text(self@),
    {
        if self.is_w_castle {
            push_glyph(out, 'K');
        }
        if self.is_w_q_castle {
            push_glyph(out, 'Q');
        }
        if self.is_b_castle {
            push_glyph(out, 'k');
        }
        if self.is_b_q_castle {
            push_glyph(out, 'q');
        }
        if !(self.is_w_castle || self.is_w_q_castle || self.is_b_castle || self.is_b_q_castle) {
            push_glyph(out, '-');
        }
        proof {
            assert(out@ =~= old(out)@ + castling_text(self@));
        }
    }

    /// Appends the en-passant field.
    fn push_target(&self, out: &mut String)
        requires
            self.wf(),
        ensures
            final(out)@ == old(out)@ + target_text(self@),
    {
        match self.en_passent {
            Some(ep) => {
                proof {
                    axiom_u64_trailing_zeros(ep);
                }
                let index: u64 = ep.trailing_zeros() as u64;
                push_glyph(out, file_letter(index % 8));
                push_glyph(out, rank_digit(index / 8));
            },
            None => {
                push_glyph(out, '-');
            },
        }
        proof {
            assert(out@ =~= old(out)@ + target_text(self@));
        }
    }

    /// Writes the position in Forsyth-Edwards notation.
    pub fn to_fen(&self) -> (r: String)
        requires
            self.wf(),
        ensures
            r@ == fen_of(self@),
    {
        let mut out = String::new();
        self.push_placement(&mut out);
        push_glyph(&mut out, ' ');
        if self.is_w_move {
            push_glyph(&mut out, 'w');
        } else {
            push_glyph(&mut out, 'b');
        }
        push_glyph(&mut out, ' ');
        let ghost side = out@;
        assert(side =~= ranks_text(self@.squares, 7).push(' ').push(
            if self@.white_to_move {
                'w'
            } else {
                'b'
            },
        ).push(' '));
        self.push_rights(&mut out);
        push_glyph(&mut out, ' ');
        let ghost rights = out@;
        assert(rights =~= side + castling_text(self@).push(' '));
        self.push_target(&mut out);
        push_glyph(&mut out, ' ');
        let ghost target = out@;
        assert(target =~= rights + target_text(self@).push(' '));
        push_number(&mut out, self.halfmove_clock);
        push_glyph(&mut out, ' ');
        let ghost halfmove = out@;
        assert(halfmove =~= target + decimal(self.halfmove_clock as nat).push(' '));
        push_number(&mut out, self.fullmove_clock);
        out
    }
}

} // verus!
