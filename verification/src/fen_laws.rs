//! Reading a position back from its Forsyth-Edwards notation gives the
//! position again.

use crate::board::{PieceType, Position, file_char, rank_char, square_of_chars};
use crate::fen::{
    Cursor, castling_field, castling_text, empty_squares, fen_of, piece_char, piece_of_char,
    rank_text, ranks_text, read_fen, read_placement, read_placement_char, read_placement_from,
    read_side, read_target, target_text,
};
use crate::text::{
    decimal, digit_char, digit_value, digits_value, is_space, joined, number, words, words_from,
};
use vstd::prelude::*;

verus! {

/// Whether a text can stand as a field: it is not empty and holds no white
/// space.
pub open spec fn is_field(s: Seq<char>) -> bool {
    s.len() > 0 && forall|i: int| 0 <= i < s.len() ==> !is_space(#[trigger] s[i])
}

/// The words done and the word in progress after the first `k` characters
/// of a text have been read.
pub open spec fn scan(s: Seq<char>, k: nat) -> (Seq<Seq<char>>, Seq<char>)
    decreases k,
{
    if k == 0 {
        (Seq::empty(), Seq::empty())
    } else {
        let (done, word) = scan(s, (k - 1) as nat);
        if is_space(s[k - 1]) {
            (
                if word.len() > 0 {
                    done.push(word)
                } else {
                    done
                },
                Seq::empty(),
            )
        } else {
            (done, word.push(s[k - 1]))
        }
    }
}

/// Reading on from any point gives the words of the text.
proof fn lemma_scan_words(s: Seq<char>, k: nat)
    requires
        k <= s.len(),
    ensures
        words_from(s, k as int, scan(s, k).0, scan(s, k).1) == words(s),
    decreases k,
{
    if k > 0 {
        lemma_scan_words(s, (k - 1) as nat);
    }
}

/// What was read of a text does not depend on what follows.
proof fn lemma_scan_prefix(a: Seq<char>, b: Seq<char>, k: nat)
    requires
        k <= a.len(),
    ensures
        scan(a + b, k) == scan(a, k),
    decreases k,
{
    if k > 0 {
        lemma_scan_prefix(a, b, (k - 1) as nat);
        assert((a + b)[k - 1] == a[k - 1]);
    }
}

/// Reading characters that are no white space adds them to the word in
/// progress.
proof fn lemma_scan_field(a: Seq<char>, w: Seq<char>, k: nat)
    requires
        k <= w.len(),
        forall|i: int| 0 <= i < w.len() ==> !is_space(#[trigger] w[i]),
    ensures
        scan(a + w, a.len() + k) == (scan(a, a.len()).0, scan(a, a.len()).1 + w.take(k as int)),
    decreases k,
{
    if k > 0 {
        lemma_scan_field(a, w, (k - 1) as nat);
        assert((a + w)[a.len() + k - 1] == w[k - 1]);
        assert(w.take(k as int) =~= w.take(k - 1).push(w[k - 1]));
        assert(scan(a, a.len()).1 + w.take(k as int) =~= (scan(a, a.len()).1 + w.take(
            k - 1,
        )).push(w[k - 1]));
    } else {
        lemma_scan_prefix(a, w, a.len());
        assert(scan(a, a.len()).1 + w.take(0) =~= scan(a, a.len()).1);
    }
}

/// Fields joined by single spaces read as the fields: all but the last
/// are done, and the last is in progress.
proof fn lemma_scan_joined(fields: Seq<Seq<char>>)
    requires
        fields.len() > 0,
        forall|i: int| 0 <= i < fields.len() ==> is_field(#[trigger] fields[i]),
    ensures
        scan(joined(fields), joined(fields).len()) == (fields.drop_last(), fields.last()),
    decreases fields.len(),
{
    let s = joined(fields);
    let last = fields.last();
    assert(is_field(last));
    if fields.len() == 1 {
        lemma_scan_field(Seq::empty(), last, last.len());
        assert(Seq::<char>::empty() + last =~= last);
        assert(last.take(last.len() as int) =~= last);
        assert(Seq::<char>::empty() + last.take(last.len() as int) =~= last);
        assert(fields.drop_last() =~= Seq::<Seq<char>>::empty());
    } else {
        let init = fields.drop_last();
        assert forall|i: int| 0 <= i < init.len() implies is_field(#[trigger] init[i]) by {
            assert(init[i] == fields[i]);
        }
        lemma_scan_joined(init);
        let head = joined(init);
        let spaced = head.push(' ');
        assert(s == spaced + last);
        lemma_scan_prefix(head, seq![' '], head.len());
        assert(head + seq![' '] =~= spaced);
        assert(scan(spaced, spaced.len()) == (init, Seq::<char>::empty())) by {
            assert(spaced[spaced.len() - 1] == ' ');
            assert(scan(spaced, head.len()) == (init.drop_last(), init.last()));
            assert(is_field(init.last()));
            assert(init.drop_last().push(init.last()) =~= init);
        }
        lemma_scan_field(spaced, last, last.len());
        assert(last.take(last.len() as int) =~= last);
        assert(Seq::<char>::empty() + last =~= last);
    }
}

/// The words of fields joined by single spaces are the fields.
pub proof fn lemma_words_of_joined(fields: Seq<Seq<char>>)
    requires
        fields.len() > 0,
        forall|i: int| 0 <= i < fields.len() ==> is_field(#[trigger] fields[i]),
    ensures
        words(joined(fields)) == fields,
{
    let s = joined(fields);
    lemma_scan_joined(fields);
    lemma_scan_words(s, s.len());
    assert(is_field(fields.last()));
    assert(fields.drop_last().push(fields.last()) =~= fields);
}

/// A number in decimal is a field of digits that spells the number.
pub proof fn lemma_decimal(n: nat)
    ensures
        is_field(decimal(n)),
        digits_value(decimal(n)) == Some(n),
        digit_value(decimal(n)[0]) is Some,
    decreases n,
{
    let d = decimal(n);
    lemma_digit((n % 10) as int);
    if n >= 10 {
        lemma_decimal(n / 10);
        assert(d.drop_last() =~= decimal(n / 10));
        assert(d.last() == digit_char((n % 10) as int));
        assert(d[0] == decimal(n / 10)[0]);
    } else {
        assert(d.drop_last() =~= Seq::<char>::empty());
        assert(digits_value(d.drop_last()) == Some(0nat));
        assert(d.last() == digit_char(n as int));
    }
}

/// The character of a digit has the digit as its value, and is no white
/// space, slash or piece letter.
proof fn lemma_digit(d: int)
    requires
        0 <= d < 10,
    ensures
        digit_value(digit_char(d)) == Some(d),
        !is_space(digit_char(d)),
        digit_char(d) != '/',
{
}

/// Reading a text of one character is reading the character.
proof fn lemma_read_one(c: char, cur: Cursor)
    ensures
        read_text(seq![c], cur) == read_placement_char(cur, c),
{
    let s = seq![c];
    assert(s.drop_first() =~= Seq::<char>::empty());
    match read_placement_char(cur, c) {
        Some(next) => {
            assert(read_text(Seq::<char>::empty(), next) == Some(next));
        },
        None => {},
    }
}

/// A number that 32 bits can hold reads back from its decimal form.
pub proof fn lemma_number_round_trip(n: nat)
    requires
        n <= u32::MAX,
    ensures
        number(decimal(n)) == Some(n as u32),
{
    lemma_decimal(n);
}

/// Reads a piece placement, text by text.
pub open spec fn read_text(s: Seq<char>, cur: Cursor) -> Option<Cursor>
    decreases s.len(),
{
    if s.len() == 0 {
        Some(cur)
    } else {
        match read_placement_char(cur, s[0]) {
            Some(next) => read_text(s.drop_first(), next),
            None => None,
        }
    }
}

/// Reading from a position in a text is reading the rest of the text.
proof fn lemma_read_from(s: Seq<char>, i: int, cur: Cursor)
    requires
        0 <= i <= s.len(),
    ensures
        read_placement_from(s, i, cur) == read_text(s.skip(i), cur),
    decreases s.len() - i,
{
    if i < s.len() {
        assert(s.skip(i)[0] == s[i]);
        assert(s.skip(i).drop_first() =~= s.skip(i + 1));
        match read_placement_char(cur, s[i]) {
            Some(next) => {
                lemma_read_from(s, i + 1, next);
            },
            None => {},
        }
    }
}

/// Reading two texts in a row is reading the second from where the first
/// ends.
proof fn lemma_read_concat(a: Seq<char>, b: Seq<char>, cur: Cursor)
    ensures
        read_text(a + b, cur) == match read_text(a, cur) {
            Some(mid) => read_text(b, mid),
            None => None,
        },
    decreases a.len(),
{
    if a.len() == 0 {
        assert(a + b =~= b);
    } else {
        assert((a + b)[0] == a[0]);
        assert((a + b).drop_first() =~= a.drop_first() + b);
        match read_placement_char(cur, a[0]) {
            Some(next) => {
                lemma_read_concat(a.drop_first(), b, next);
            },
            None => {},
        }
    }
}

/// The squares of `squares` up to the cursor, the others empty.
pub open spec fn filled(squares: Seq<Option<PieceType>>, rank: int, file: int) -> Seq<
    Option<PieceType>,
> {
    Seq::new(
        64,
        |sq: int|
            if sq / 8 > rank || (sq / 8 == rank && sq % 8 < file) {
                squares[sq]
            } else {
                None
            },
    )
}

/// The letter of a piece names the piece, and is no digit.
proof fn lemma_piece_char(pt: PieceType)
    ensures
        piece_of_char(piece_char(pt)) == Some(pt),
        digit_value(piece_char(pt)) is None,
        piece_char(pt) != '/',
        !is_space(piece_char(pt)),
{
}

/// The rest of a rank reads back: from the cursor before a run of empty
/// squares to the end of the rank.
proof fn lemma_rank_round_trip(squares: Seq<Option<PieceType>>, rank: int, file: int, run: int)
    requires
        squares.len() == 64,
        0 <= rank < 8,
        0 <= run <= file <= 8,
        forall|f: int| file - run <= f < file ==> (#[trigger] squares[rank * 8 + f]) is None,
    ensures
        read_text(
            rank_text(squares, rank, file, run),
            Cursor { rank, file: file - run, squares: filled(squares, rank, file) },
        ) == Some(Cursor { rank, file: 8, squares: filled(squares, rank, 8) }),
        forall|i: int|
            0 <= i < rank_text(squares, rank, file, run).len() ==> !is_space(
                #[trigger] rank_text(squares, rank, file, run)[i],
            ) && rank_text(squares, rank, file, run)[i] != '/',
        file < 8 || run > 0 ==> rank_text(squares, rank, file, run).len() > 0,
    decreases 8 - file,
{
    let start = Cursor { rank, file: file - run, squares: filled(squares, rank, file) };
    let gap = if run > 0 {
        seq![digit_char(run)]
    } else {
        Seq::empty()
    };
    let after_gap = Cursor { file, ..start };
    assert(read_text(gap, start) == Some(after_gap)) by {
        if run > 0 {
            lemma_digit(run);
            lemma_read_one(digit_char(run), start);
            assert(read_placement_char(start, digit_char(run)) == Some(after_gap));
        }
    }
    if run > 0 {
        lemma_digit(run);
    }
    if file >= 8 {
    } else {
        match squares[rank * 8 + file] {
            Some(pt) => {
                lemma_piece_char(pt);
                lemma_rank_round_trip(squares, rank, file + 1, 0);
                let rest = rank_text(squares, rank, file + 1, 0);
                let placed = Cursor {
                    rank,
                    file: file + 1,
                    squares: filled(squares, rank, file + 1),
                };
                assert(read_placement_char(after_gap, piece_char(pt)) == Some(placed)) by {
                    assert(after_gap.squares.update(rank * 8 + file, Some(pt)) =~= filled(
                        squares,
                        rank,
                        file + 1,
                    ));
                }
                let letter = seq![piece_char(pt)];
                lemma_read_one(piece_char(pt), after_gap);
                assert(read_text(letter, after_gap) == Some(placed));
                lemma_read_concat(gap, letter, start);
                assert(gap + letter =~= gap.push(piece_char(pt)));
                lemma_read_concat(gap.push(piece_char(pt)), rest, start);
            },
            None => {
                lemma_rank_round_trip(squares, rank, file + 1, run + 1);
                assert(filled(squares, rank, file + 1) =~= filled(squares, rank, file));
            },
        }
    }
}

/// The ranks from `rank` down read back.
proof fn lemma_ranks_round_trip(squares: Seq<Option<PieceType>>, rank: int)
    requires
        squares.len() == 64,
        0 <= rank < 8,
    ensures
        read_text(
            ranks_text(squares, rank),
            Cursor { rank, file: 0, squares: filled(squares, rank, 0) },
        ) == Some(Cursor { rank: 0, file: 8, squares }),
        is_field(ranks_text(squares, rank)),
    decreases rank,
{
    let start = Cursor { rank, file: 0, squares: filled(squares, rank, 0) };
    let line = rank_text(squares, rank, 0, 0);
    let end = Cursor { rank, file: 8, squares: filled(squares, rank, 8) };
    lemma_rank_round_trip(squares, rank, 0, 0);
    if rank == 0 {
        assert(filled(squares, 0, 8) =~= squares);
    } else {
        lemma_ranks_round_trip(squares, rank - 1);
        let rest = ranks_text(squares, rank - 1);
        let below = Cursor { rank: rank - 1, file: 0, squares: filled(squares, rank - 1, 0) };
        assert(filled(squares, rank, 8) =~= filled(squares, rank - 1, 0));
        assert(read_placement_char(end, '/') == Some(below));
        let slash = seq!['/'];
        lemma_read_one('/', end);
        assert(read_text(slash, end) == Some(below));
        lemma_read_concat(line, slash, start);
        assert(line + slash =~= line.push('/'));
        lemma_read_concat(line.push('/'), rest, start);
    }
}

/// A piece placement reads back from its text.
pub proof fn lemma_placement_round_trip(squares: Seq<Option<PieceType>>)
    requires
        squares.len() == 64,
    ensures
        read_placement(ranks_text(squares, 7)) == Some(squares),
        is_field(ranks_text(squares, 7)),
{
    lemma_ranks_round_trip(squares, 7);
    let text = ranks_text(squares, 7);
    let start = Cursor { rank: 7, file: 0, squares: empty_squares() };
    assert(filled(squares, 7, 0) =~= empty_squares());
    lemma_read_from(text, 0, start);
    assert(text.skip(0) =~= text);
}

/// Whether a position can be written and read back: it has 64 squares, an
/// en-passant target, if any, on the board, and clocks that 32 bits can
/// hold.
pub open spec fn writable(p: Position) -> bool {
    &&& p.squares.len() == 64
    &&& (p.en_passant matches Some(sq) ==> sq < 64)
    &&& 0 <= p.halfmove_clock <= u32::MAX
    &&& 0 <= p.fullmove_number <= u32::MAX
}

/// The castling field reads back.
proof fn lemma_castling_round_trip(p: Position)
    ensures
        is_field(castling_text(p)),
        castling_field(castling_text(p)),
        castling_text(p).contains('K') == p.white_kingside,
        castling_text(p).contains('Q') == p.white_queenside,
        castling_text(p).contains('k') == p.black_kingside,
        castling_text(p).contains('q') == p.black_queenside,
{
    let t = castling_text(p);
    let k: Seq<char> = if p.white_kingside {
        seq!['K']
    } else {
        Seq::empty()
    };
    let q: Seq<char> = if p.white_queenside {
        seq!['Q']
    } else {
        Seq::empty()
    };
    let bk: Seq<char> = if p.black_kingside {
        seq!['k']
    } else {
        Seq::empty()
    };
    let bq: Seq<char> = if p.black_queenside {
        seq!['q']
    } else {
        Seq::empty()
    };
    if !p.white_kingside && !p.white_queenside && !p.black_kingside && !p.black_queenside {
        assert(t[0] == '-');
    } else {
        assert(t == k + q + bk + bq);
        if p.white_kingside {
            assert(t[0] == 'K');
        }
        if p.white_queenside {
            assert(t[k.len() as int] == 'Q');
        }
        if p.black_kingside {
            assert(t[(k.len() + q.len()) as int] == 'k');
        }
        if p.black_queenside {
            assert(t[(k.len() + q.len() + bk.len()) as int] == 'q');
        }
    }
    assert forall|c: char| t.contains(c) implies (c == 'K' && p.white_kingside) || (c == 'Q'
        && p.white_queenside) || (c == 'k' && p.black_kingside) || (c == 'q' && p.black_queenside)
        || c == '-' by {
        let i = choose|i: int| 0 <= i < t.len() && t[i] == c;
    }
}

/// The en-passant field reads back.
proof fn lemma_target_round_trip(p: Position)
    requires
        p.en_passant matches Some(sq) ==> sq < 64,
    ensures
        is_field(target_text(p)),
        read_target(target_text(p)) == Some(p.en_passant),
{
    match p.en_passant {
        Some(sq) => {
            let t = target_text(p);
            assert(t[0] == file_char(sq % 8));
            assert(t[1] == rank_char(sq / 8));
            assert(t.len() == 2);
            assert(square_of_chars(t[0], t[1]) == Some(sq));
        },
        None => {
            assert(target_text(p) =~= seq!['-']);
        },
    }
}

/// A position reads back from its Forsyth-Edwards notation.
pub proof fn lemma_fen_round_trip(p: Position)
    requires
        writable(p),
    ensures
        read_fen(fen_of(p)) == Some(p),
{
    let placement = ranks_text(p.squares, 7);
    let side: Seq<char> = seq![if p.white_to_move {
        'w'
    } else {
        'b'
    }];
    let rights = castling_text(p);
    let target = target_text(p);
    let half = decimal(p.halfmove_clock as nat);
    let full = decimal(p.fullmove_number as nat);
    let fields = seq![placement, side, rights, target, half, full];
    lemma_placement_round_trip(p.squares);
    lemma_castling_round_trip(p);
    lemma_target_round_trip(p);
    lemma_decimal(p.halfmove_clock as nat);
    lemma_decimal(p.fullmove_number as nat);
    lemma_number_round_trip(p.halfmove_clock as nat);
    lemma_number_round_trip(p.fullmove_number as nat);
    assert(is_field(side)) by {
        assert(side[0] == 'w' || side[0] == 'b');
    }
    assert(joined(fields) == fen_of(p)) by {
        let f1 = fields.drop_last();
        let f2 = f1.drop_last();
        let f3 = f2.drop_last();
        let f4 = f3.drop_last();
        let f5 = f4.drop_last();
        assert(f5 =~= seq![placement]);
        assert(f4 =~= seq![placement, side]);
        assert(f3 =~= seq![placement, side, rights]);
        assert(f2 =~= seq![placement, side, rights, target]);
        assert(f1 =~= seq![placement, side, rights, target, half]);
        assert(joined(f5) == placement);
        assert(joined(f4) == placement.push(' ') + side);
        assert(joined(f3) == joined(f4).push(' ') + rights);
        assert(joined(f2) == joined(f3).push(' ') + target);
        assert(joined(f1) == joined(f2).push(' ') + half);
        assert(joined(fields) == joined(f1).push(' ') + full);
        assert(joined(fields) =~= fen_of(p));
    }
    lemma_words_of_joined(fields);
    assert(read_fen(fen_of(p)) == Some(p)) by {
        let w = words(fen_of(p));
        assert(w == fields);
        assert(w[1] == side);
        assert(read_side(w[1]) == Some(p.white_to_move)) by {
            if p.white_to_move {
                assert(side =~= seq!['w']);
            } else {
                assert(side =~= seq!['b']);
                assert(side[0] != 'w');
            }
        }
    }
}

/// A well-formed board reads back from the notation it is written in.
pub proof fn lemma_board_round_trip(b: crate::board::Board)
    requires
        b.wf(),
    ensures
        read_fen(fen_of(b@)) == Some(b@),
{
    lemma_fen_round_trip(b@);
}

/// Writing the position read from a canonical text gives the text again,
/// a text being canonical if it is what some position is written as.
pub proof fn lemma_canonical_fen_round_trip(f: Seq<char>)
    requires
        exists|p: Position| writable(p) && #[trigger] fen_of(p) == f,
    ensures
        read_fen(f) matches Some(p) && fen_of(p) == f,
{
    let p = choose|p: Position| writable(p) && #[trigger] fen_of(p) == f;
    lemma_fen_round_trip(p);
}

} // verus!
