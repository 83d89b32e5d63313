//! What the protocol shell hands to the engine: the options, the search
//! budget and the position to search.

use crate::board::{Board, Position, read_move};
use crate::fen::read_fen;
use crate::magic::MagicTables;
use crate::move_gen::has_kings;
use crate::search::Tree;
use crate::text::{
    integer, joined, number, parse_integer, parse_number, push_glyph, str_eq, views,
};
use vstd::prelude::*;

verus! {

/// The value of an option: a button, a check box or a number in a range.
#[allow(inconsistent_fields)]
#[derive(Clone, Copy, PartialEq, Eq, Debug, Structural)]
pub enum UciValue {
    Button,
    Check { value: bool, default: bool },
    Spin { value: i32, default: i32, min: i32, max: i32 },
}

/// A named option.
#[derive(Clone, Debug)]
pub struct UciOption {
    pub value: UciValue,
    pub name: String,
}

/// The budget of a search.
#[derive(Clone, Copy, PartialEq, Eq, Debug, Structural)]
pub enum UciGo {
    /// Remaining time and increment of each side in milliseconds, and the
    /// number of moves to the next time control.
    Time {
        wtime: Option<u32>,
        btime: Option<u32>,
        winc: Option<u32>,
        binc: Option<u32>,
        movestogo: Option<u32>,
    },
    /// Search until the tree is deeper than `plies`.
    Depth { plies: u32 },
    /// Search until the root has more than `count` visits.
    Nodes { count: u32 },
    /// Search for `mseconds` milliseconds.
    Movetime { mseconds: u32 },
    /// Search until told to stop.
    Infinite,
}

/// The field of a time control that the next number belongs to.
#[derive(Clone, Copy, PartialEq, Eq, Debug, Structural)]
pub enum GoState {
    WTime,
    BTime,
    WInc,
    BInc,
    Movestogo,
    Initial,
}

/// The starting position.
pub const STARTPOS: &'static str = "rnbqkbnr/pppppppp/8/8/8/8/PPPPPPPP/RNBQKBNR w KQkq - 0 1";

/// The field that a word of a time control names.
pub open spec fn time_word(w: Seq<char>) -> Option<GoState> {
    if w == "wtime"@ {
        Some(GoState::WTime)
    } else if w == "btime"@ {
        Some(GoState::BTime)
    } else if w == "winc"@ {
        Some(GoState::WInc)
    } else if w == "binc"@ {
        Some(GoState::BInc)
    } else if w == "movestogo"@ {
        Some(GoState::Movestogo)
    } else {
        None
    }
}

/// A time control with one field set.
pub open spec fn with_field(go: UciGo, state: GoState, v: u32) -> Option<UciGo> {
    match go {
        UciGo::Time { wtime, btime, winc, binc, movestogo } => match state {
            GoState::WTime => Some(UciGo::Time { wtime: Some(v), btime, winc, binc, movestogo }),
            GoState::BTime => Some(UciGo::Time { wtime, btime: Some(v), winc, binc, movestogo }),
            GoState::WInc => Some(UciGo::Time { wtime, btime, winc: Some(v), binc, movestogo }),
            GoState::BInc => Some(UciGo::Time { wtime, btime, winc, binc: Some(v), movestogo }),
            GoState::Movestogo => Some(
                UciGo::Time { wtime, btime, winc, binc, movestogo: Some(v) },
            ),
            GoState::Initial => None,
        },
        _ => None,
    }
}

/// Reads the words of a time control from word `i` on: a field name says
/// which field the numbers after it set.
pub open spec fn go_time_from(words: Seq<Seq<char>>, i: int, state: GoState, go: UciGo) -> Option<
    UciGo,
>
    decreases words.len() - i,
{
    if i < 0 || i >= words.len() {
        Some(go)
    } else {
        match time_word(words[i]) {
            Some(next) => go_time_from(words, i + 1, next, go),
            None => match number(words[i]) {
                Some(v) => match with_field(go, state, v) {
                    Some(set) => go_time_from(words, i + 1, state, set),
                    None => None,
                },
                None => None,
            },
        }
    }
}

/// The time control that the words of a `go` command describe, the first
/// word being `go`: the fields named, each with the number after its name,
/// the time of at least one side among them.
pub open spec fn go_time(words: Seq<Seq<char>>) -> Option<UciGo> {
    let empty = UciGo::Time { wtime: None, btime: None, winc: None, binc: None, movestogo: None };
    match go_time_from(words, 1, GoState::Initial, empty) {
        Some(UciGo::Time { wtime, btime, winc, binc, movestogo }) => if wtime is None
            && btime is None {
            None
        } else {
            Some(UciGo::Time { wtime, btime, winc, binc, movestogo })
        },
        _ => None,
    }
}

/// The number that is the third word of a command.
pub open spec fn third_number(words: Seq<Seq<char>>) -> Option<u32> {
    if words.len() < 3 {
        None
    } else {
        number(words[2])
    }
}

/// The search budget that the words of a `go` command describe, the first
/// word being `go`.
pub open spec fn go_command(words: Seq<Seq<char>>) -> Option<UciGo> {
    if words.len() < 2 {
        None
    } else if time_word(words[1]) is Some {
        go_time(words)
    } else if words[1] == "depth"@ {
        match third_number(words) {
            Some(plies) => Some(UciGo::Depth { plies }),
            None => None,
        }
    } else if words[1] == "nodes"@ {
        match third_number(words) {
            Some(count) => Some(UciGo::Nodes { count }),
            None => None,
        }
    } else if words[1] == "movetime"@ {
        match third_number(words) {
            Some(mseconds) => Some(UciGo::Movetime { mseconds }),
            None => None,
        }
    } else if words[1] == "infinite"@ {
        Some(UciGo::Infinite)
    } else {
        None
    }
}

/// The view of the word `i` of a command.
proof fn lemma_word(input: &Vec<String>, i: int)
    requires
        0 <= i < input@.len(),
    ensures
        views(input@)[i] == input@[i]@,
        views(input@).len() == input@.len(),
{
}

fn time_field(w: &str) -> (r: Option<GoState>)
    ensures
        r == time_word(w@),
{
    if str_eq(w, "wtime") {
        Some(GoState::WTime)
    } else if str_eq(w, "btime") {
        Some(GoState::BTime)
    } else if str_eq(w, "winc") {
        Some(GoState::WInc)
    } else if str_eq(w, "binc") {
        Some(GoState::BInc)
    } else if str_eq(w, "movestogo") {
        Some(GoState::Movestogo)
    } else {
        None
    }
}

/// Reads a `go` command with a time control.
pub fn parse_go_time(input: &Vec<String>) -> (r: Option<UciGo>)
    ensures
        r == go_time(views(input@)),
{
    let mut wtime: Option<u32> = None;
    let mut btime: Option<u32> = None;
    let mut winc: Option<u32> = None;
    let mut binc: Option<u32> = None;
    let mut movestogo: Option<u32> = None;
    let mut state = GoState::Initial;
    let ghost words = views(input@);
    let ghost empty = UciGo::Time {
        wtime: None,
        btime: None,
        winc: None,
        binc: None,
        movestogo: None,
    };
    let n = input.len();
    let mut i: usize = 1;
    while i < n
        invariant
            1 <= i,
            n == input@.len(),
            words == views(input@),
            empty == (UciGo::Time {
                wtime: None,
                btime: None,
                winc: None,
                binc: None,
                movestogo: None,
            }),
            go_time_from(
                words,
                i as int,
                state,
                UciGo::Time { wtime, btime, winc, binc, movestogo },
            ) == go_time_from(words, 1, GoState::Initial, empty),
        decreases n - i,
    {
        proof {
            lemma_word(input, i as int);
        }
        let word = input[i].as_str();
        match time_field(word) {
            Some(next) => {
                state = next;
            },
            None => match parse_number(word) {
                Some(v) => match state {
                    GoState::WTime => {
                        wtime = Some(v);
                    },
                    GoState::BTime => {
                        btime = Some(v);
                    },
                    GoState::WInc => {
                        winc = Some(v);
                    },
                    GoState::BInc => {
                        binc = Some(v);
                    },
                    GoState::Movestogo => {
                        movestogo = Some(v);
                    },
                    GoState::Initial => {
                        return None;
                    },
                },
                None => {
                    return None;
                },
            },
        }
        i = i + 1;
    }
    if wtime.is_none() && btime.is_none() {
        None
    } else {
        Some(UciGo::Time { wtime, btime, winc, binc, movestogo })
    }
}

fn parse_third_number(input: &Vec<String>) -> (r: Option<u32>)
    ensures
        r == third_number(views(input@)),
{
    if input.len() < 3 {
        None
    } else {
        proof {
            lemma_word(input, 2);
        }
        parse_number(input[2].as_str())
    }
}

/// Reads a `go` command with a depth.
pub fn parse_go_depth(input: &Vec<String>) -> (r: Option<UciGo>)
    ensures
        r == match third_number(views(input@)) {
            Some(plies) => Some(UciGo::Depth { plies }),
            None => None,
        },
{
    match parse_third_number(input) {
        Some(plies) => Some(UciGo::Depth { plies }),
        None => None,
    }
}

/// Reads a `go` command with a number of nodes.
pub fn parse_go_nodes(input: &Vec<String>) -> (r: Option<UciGo>)
    ensures
        r == match third_number(views(input@)) {
            Some(count) => Some(UciGo::Nodes { count }),
            None => None,
        },
{
    match parse_third_number(input) {
        Some(count) => Some(UciGo::Nodes { count }),
        None => None,
    }
}

/// Reads a `go` command with a time for the move.
pub fn parse_go_movetime(input: &Vec<String>) -> (r: Option<UciGo>)
    ensures
        r == match third_number(views(input@)) {
            Some(mseconds) => Some(UciGo::Movetime { mseconds }),
            None => None,
        },
{
    match parse_third_number(input) {
        Some(mseconds) => Some(UciGo::Movetime { mseconds }),
        None => None,
    }
}

/// Reads a `go` command without a bound.
pub fn parse_go_infinite(_input: &Vec<String>) -> (r: UciGo)
    ensures
        r == UciGo::Infinite,
{
    UciGo::Infinite
}

/// Reads a `go` command: `None` where the words describe no search
/// budget.
pub fn parse_go_command(input: &Vec<String>) -> (r: Option<UciGo>)
    ensures
        r == go_command(views(input@)),
{
    if input.len() < 2 {
        return None;
    }
    proof {
        lemma_word(input, 1);
    }
    let kind = input[1].as_str();
    if time_field(kind).is_some() {
        parse_go_time(input)
    } else if str_eq(kind, "depth") {
        parse_go_depth(input)
    } else if str_eq(kind, "nodes") {
        parse_go_nodes(input)
    } else if str_eq(kind, "movetime") {
        parse_go_movetime(input)
    } else if str_eq(kind, "infinite") {
        Some(parse_go_infinite(input))
    } else {
        None
    }
}

/// The index of the first option with the given name.
pub open spec fn option_index(options: Seq<UciOption>, name: Seq<char>, k: nat) -> Option<int>
    decreases k,
{
    if k == 0 {
        None
    } else {
        match option_index(options, name, (k - 1) as nat) {
            Some(i) => Some(i),
            None => if options[k - 1].name@ == name {
                Some(k - 1)
            } else {
                None
            },
        }
    }
}

/// The index of the first option with the given name.
pub fn find_option(options: &Vec<UciOption>, name: &str) -> (r: Option<usize>)
    ensures
        match r {
            Some(i) => option_index(options@, name@, options@.len()) == Some(i as int) && i
                < options@.len() && options@[i as int].name@ == name@,
            None => option_index(options@, name@, options@.len()) is None,
        },
{
    let n = options.len();
    let mut i: usize = 0;
    while i < n
        invariant
            i <= n,
            n == options@.len(),
            option_index(options@, name@, i as nat) is None,
        decreases n - i,
    {
        if str_eq(options[i].name.as_str(), name) {
            proof {
                lemma_option_found(options@, name@, i as int, n as nat);
            }
            return Some(i);
        }
        i = i + 1;
    }
    None
}

/// The first option with a name is the one found among any more options.
proof fn lemma_option_found(options: Seq<UciOption>, name: Seq<char>, i: int, k: nat)
    requires
        0 <= i < k <= options.len(),
        option_index(options, name, i as nat) is None,
        options[i].name@ == name,
    ensures
        option_index(options, name, k) == Some(i),
    decreases k,
{
    if k > i + 1 {
        lemma_option_found(options, name, i, (k - 1) as nat);
    }
}

/// The number that the option with the given name holds, if there is such
/// an option and it holds a number.
pub fn spin_value(options: &Vec<UciOption>, name: &str) -> (r: Option<i32>)
    ensures
        r == match option_index(options@, name@, options@.len()) {
            Some(i) => match options@[i].value {
                UciValue::Spin { value, default, min, max } => Some(value),
                _ => None,
            },
            None => None,
        },
{
    match find_option(options, name) {
        Some(i) => match options[i].value {
            UciValue::Spin { value, default, min, max } => Some(value),
            _ => None,
        },
        None => None,
    }
}

/// The value that an option takes when it is set from the text `text`: a
/// check box takes `true` or `false`, a number any integer. `None` where
/// the text is no such value, or the option is a button.
pub open spec fn value_set(old: UciValue, text: Seq<char>) -> Option<UciValue> {
    match old {
        UciValue::Button => None,
        UciValue::Check { value, default } => if text == "true"@ {
            Some(UciValue::Check { value: true, default })
        } else if text == "false"@ {
            Some(UciValue::Check { value: false, default })
        } else {
            None
        },
        UciValue::Spin { value, default, min, max } => match integer(text) {
            Some(v) => Some(UciValue::Spin { value: v, default, min, max }),
            None => None,
        },
    }
}

/// What a `setoption` command sets: the index of the option and its new
/// value. The command reads `setoption name <name> value <value>`.
pub open spec fn option_set(options: Seq<UciOption>, words: Seq<Seq<char>>) -> Option<
    (int, UciValue),
> {
    if words.len() < 5 || words[1] != "name"@ || words[3] != "value"@ {
        None
    } else {
        match option_index(options, words[2], options.len()) {
            Some(i) => match value_set(options[i].value, words[4]) {
                Some(v) => Some((i, v)),
                None => None,
            },
            None => None,
        }
    }
}

/// Carries out a `setoption` command, and says whether it set an option.
/// The options are unchanged where it did not.
pub fn uci_setoption(options: &mut Vec<UciOption>, input: &Vec<String>) -> (set: bool)
    ensures
        final(options)@.len() == old(options)@.len(),
        match option_set(old(options)@, views(input@)) {
            Some((i, v)) => set && final(options)@[i].value == v && final(options)@[i].name == old(
                options,
            )@[i].name && forall|k: int|
                0 <= k < old(options)@.len() && k != i ==> final(options)@[k] == old(options)@[k],
            None => !set && final(options)@ == old(options)@,
        },
{
    if input.len() < 5 {
        return false;
    }
    proof {
        lemma_word(input, 1);
        lemma_word(input, 2);
        lemma_word(input, 3);
        lemma_word(input, 4);
    }
    if !str_eq(input[1].as_str(), "name") || !str_eq(input[3].as_str(), "value") {
        return false;
    }
    let i = match find_option(options, input[2].as_str()) {
        Some(i) => i,
        None => {
            return false;
        },
    };
    let text = input[4].as_str();
    let new_value = match options[i].value {
        UciValue::Button => {
            return false;
        },
        UciValue::Check { value, default } => {
            if str_eq(text, "true") {
                UciValue::Check { value: true, default }
            } else if str_eq(text, "false") {
                UciValue::Check { value: false, default }
            } else {
                return false;
            }
        },
        UciValue::Spin { value, default, min, max } => match parse_integer(text) {
            Some(v) => UciValue::Spin { value: v, default, min, max },
            None => {
                return false;
            },
        },
    };
    options[i].value = new_value;
    true
}

/// One option that holds a number.
fn spin(name: &str, value: i32, min: i32, max: i32) -> (o: UciOption)
    ensures
        o.name@ == name@,
        o.value == (UciValue::Spin { value, default: value, min, max }),
{
    UciOption {
        name: String::from_str(name),
        value: UciValue::Spin { value, default: value, min, max },
    }
}

/// Whether `o` is the option `name` holding its default `value` in the
/// range from `min` to `max`.
pub open spec fn is_spin(o: UciOption, name: Seq<char>, value: i32, min: i32, max: i32) -> bool {
    o.name@ == name && o.value == (UciValue::Spin { value, default: value, min, max })
}

/// The options of the engine with their defaults: the number of threads,
/// the number of lines to report, the time set aside for each move, the
/// speed of play, the eagerness to explore, the memory for the tree, the
/// skill, and two that are reserved.
pub fn initialize() -> (options: Vec<UciOption>)
    ensures
        options@.len() == 9,
        is_spin(options@[0], "Threads"@, 1, 1, 2048),
        is_spin(options@[1], "MultiPV"@, 1, 1, 256),
        is_spin(options@[2], "Move_Overhead"@, 100, 10, 5000),
        is_spin(options@[3], "Move_Speed"@, 50, 1, 100),
        is_spin(options@[4], "MCTS_Explore"@, 50, 1, 100),
        is_spin(options@[5], "MCTS_Hash"@, 4096, 16, 32768),
        is_spin(options@[6], "Skill"@, 100, 1, 100),
        is_spin(options@[7], "Contempt"@, 0, -100i32, 100),
        is_spin(options@[8], "Dynamism"@, 50, 1, 100),
{
    let mut options: Vec<UciOption> = Vec::new();
    options.push(spin("Threads", 1, 1, 2048));
    options.push(spin("MultiPV", 1, 1, 256));
    options.push(spin("Move_Overhead", 100, 10, 5000));
    options.push(spin("Move_Speed", 50, 1, 100));
    options.push(spin("MCTS_Explore", 50, 1, 100));
    options.push(spin("MCTS_Hash", 4096, 16, 32768));
    options.push(spin("Skill", 100, 1, 100));
    options.push(spin("Contempt", 0, -100, 100));
    options.push(spin("Dynamism", 50, 1, 100));
    options
}

/// What the words of a `position` command are being read as.
#[derive(Clone, Copy, PartialEq, Eq, Debug, Structural)]
pub enum PositionState {
    Initial,
    StartPos,
    Fen,
    Moves,
}

/// What was read of a `position` command: the words of the position in
/// Forsyth-Edwards notation and the moves.
pub struct PositionWords {
    pub fen: Seq<Seq<char>>,
    pub moves: Seq<Seq<char>>,
}

/// Reads the words of a `position` command from word `i` on. After
/// `startpos` nothing but `fen` or `moves` may follow, after `fen` the
/// words of a position, after `moves` the moves.
pub open spec fn position_from(
    words: Seq<Seq<char>>,
    i: int,
    state: PositionState,
    read: PositionWords,
) -> Option<PositionWords>
    decreases words.len() - i,
{
    if i < 0 || i >= words.len() {
        Some(read)
    } else if words[i] == "startpos"@ {
        position_from(words, i + 1, PositionState::StartPos, read)
    } else if words[i] == "fen"@ {
        position_from(words, i + 1, PositionState::Fen, read)
    } else if words[i] == "moves"@ {
        position_from(words, i + 1, PositionState::Moves, read)
    } else {
        match state {
            PositionState::Fen => position_from(
                words,
                i + 1,
                state,
                PositionWords { fen: read.fen.push(words[i]), ..read },
            ),
            PositionState::Moves => position_from(
                words,
                i + 1,
                state,
                PositionWords { moves: read.moves.push(words[i]), ..read },
            ),
            _ => None,
        }
    }
}

/// The position after the first `k` of the moves have been played, each
/// given in long algebraic notation; `None` where one of them cannot be
/// played.
pub open spec fn played(p: Position, moves: Seq<Seq<char>>, k: nat) -> Option<Position>
    decreases k,
{
    if k == 0 {
        Some(p)
    } else {
        match played(p, moves, (k - 1) as nat) {
            Some(q) => match read_move(moves[k - 1], q.white_to_move) {
                Some(m) => if q.admits(m) {
                    Some(q.apply(m))
                } else {
                    None
                },
                None => None,
            },
            None => None,
        }
    }
}

/// Why a `position` command describes no position.
#[derive(Clone, Copy, PartialEq, Eq, Debug, Structural)]
pub enum PositionError {
    /// The command has no words after its name, or a word where none is
    /// expected.
    Command,
    /// The position given is not in Forsyth-Edwards notation.
    Fen,
    /// One of the moves cannot be played.
    Move,
}

/// The position that a `position` command describes, the first word being
/// `position`: the starting position, or the one given after `fen`, with
/// the moves after `moves` played on it.
pub open spec fn position_of(words: Seq<Seq<char>>) -> Result<Position, PositionError> {
    if words.len() <= 1 {
        Err(PositionError::Command)
    } else {
        match position_from(
            words,
            1,
            PositionState::Initial,
            PositionWords { fen: Seq::empty(), moves: Seq::empty() },
        ) {
            Some(read) => {
                let text = if read.fen.len() > 0 {
                    joined(read.fen)
                } else {
                    STARTPOS@
                };
                match read_fen(text) {
                    Some(p) => match played(p, read.moves, read.moves.len()) {
                        Some(q) => Ok(q),
                        None => Err(PositionError::Move),
                    },
                    None => Err(PositionError::Fen),
                }
            },
            None => Err(PositionError::Command),
        }
    }
}

/// Reads a `position` command: the position it describes, or why it
/// describes none.
pub fn read_position(input: &Vec<String>) -> (r: Result<Board, PositionError>)
    ensures
        match r {
            Ok(b) => b.wf() && position_of(views(input@)) == Ok::<Position, PositionError>(b@),
            Err(e) => position_of(views(input@)) == Err::<Position, PositionError>(e),
        },
{
    let n = input.len();
    if n <= 1 {
        return Err(PositionError::Command);
    }
    let ghost words = views(input@);
    let ghost start = PositionWords { fen: Seq::empty(), moves: Seq::empty() };
    let mut state = PositionState::Initial;
    let mut fen = String::new();
    let mut fen_words: usize = 0;
    let mut moves: Vec<usize> = Vec::new();
    let ghost mut read = start;
    let mut i: usize = 1;
    while i < n
        invariant
            1 <= i,
            n == input@.len(),
            words == views(input@),
            start == (PositionWords { fen: Seq::empty(), moves: Seq::empty() }),
            position_from(words, i as int, state, read) == position_from(
                words,
                1,
                PositionState::Initial,
                start,
            ),
            fen_words == read.fen.len(),
            fen_words <= i,
            fen@ == joined(read.fen),
            moves@.len() == read.moves.len(),
            forall|k: int|
                0 <= k < moves@.len() ==> (#[trigger] moves@[k]) < n && input@[moves@[k] as int]@
                    == read.moves[k],
        decreases n - i,
    {
        proof {
            lemma_word(input, i as int);
        }
        let word = input[i].as_str();
        if str_eq(word, "startpos") {
            state = PositionState::StartPos;
        } else if str_eq(word, "fen") {
            state = PositionState::Fen;
        } else if str_eq(word, "moves") {
            state = PositionState::Moves;
        } else {
            match state {
                PositionState::Fen => {
                    let ghost before = read.fen;
                    if fen_words > 0 {
                        push_glyph(&mut fen, ' ');
                    }
                    fen.append(word);
                    fen_words = fen_words + 1;
                    proof {
                        read = PositionWords { fen: read.fen.push(word@), ..read };
                        assert(read.fen.drop_last() =~= before);
                        assert(read.fen.last() == word@);
                        if before.len() == 0 {
                            assert(fen@ =~= word@);
                        }
                    }
                },
                PositionState::Moves => {
                    moves.push(i);
                    proof {
                        read = PositionWords { moves: read.moves.push(word@), ..read };
                    }
                },
                _ => {
                    return Err(PositionError::Command);
                },
            }
        }
        i = i + 1;
    }
    let parsed = if fen_words > 0 {
        Board::from_fen(fen.as_str())
    } else {
        Board::from_fen(STARTPOS)
    };
    let mut board = match parsed {
        Some(b) => b,
        None => {
            return Err(PositionError::Fen);
        },
    };
    let ghost first = board@;
    let mut k: usize = 0;
    while k < moves.len()
        invariant
            k <= moves@.len(),
            n == input@.len(),
            moves@.len() == read.moves.len(),
            forall|j: int|
                0 <= j < moves@.len() ==> (#[trigger] moves@[j]) < n && input@[moves@[j] as int]@
                    == read.moves[j],
            board.wf(),
            played(first, read.moves, k as nat) == Some(board@),
            position_of(views(input@)) == (match played(first, read.moves, read.moves.len()) {
                Some(q) => Ok::<Position, PositionError>(q),
                None => Err(PositionError::Move),
            }),
        decreases moves@.len() - k,
    {
        let at = moves[k];
        if !board.try_move(input[at].as_str()) {
            proof {
                lemma_played_stops(first, read.moves, (k + 1) as nat, read.moves.len());
            }
            return Err(PositionError::Move);
        }
        k = k + 1;
    }
    Ok(board)
}

/// Once a move cannot be played, no more moves can.
proof fn lemma_played_stops(p: Position, moves: Seq<Seq<char>>, k: nat, n: nat)
    requires
        k <= n,
        played(p, moves, k) is None,
    ensures
        played(p, moves, n) is None,
    decreases n,
{
    if k < n {
        lemma_played_stops(p, moves, k, (n - 1) as nat);
    }
}

/// Carries out a `position` command: the tree whose root stands for the
/// position described. Where the root of the given tree, one of its
/// children or one of their children stands for that position, it becomes
/// the root and its subtree is kept; otherwise the tree is a new one of a
/// single node, not yet searched. The given tree is returned as it is
/// where the command describes no position, or one without both kings.
pub fn uci_position(tree: Tree, input: &Vec<String>) -> (r: Tree)
    requires
        tree.wf(),
        tree.quiet(),
    ensures
        r.wf(),
        r.quiet(),
        r.tables == tree.tables,
        match position_of(views(input@)) {
            Ok(p) => if has_kings(p) {
                &&& r.at(r.root as int).board@ == p
                &&& if exists|c: int|
                    0 <= c < tree.size() && tree.near_root(c) && (#[trigger] tree.at(c)).board@
                        == p {
                    r.nodes == tree.nodes && tree.near_root(r.root as int)
                } else {
                    let root = r.at(0);
                    r.size() == 1 && r.root == 0 && root.visits == 1 && root.depth == 0
                        && root.eval == 0 && root.ending is None && root.children@.len() == 0
                }
            } else {
                r == tree
            },
            Err(_) => r == tree,
        },
{
    let board = match read_position(input) {
        Ok(b) => b,
        Err(_) => {
            return tree;
        },
    };
    if !board.has_both_kings() {
        return tree;
    }
    let ghost given = tree;
    proof {
        assert forall|c: int| 0 <= c < given.size() implies ((#[trigger] given.at(c)).board
            == board <==> given.at(c).board@ == board@) by {
            assert(given.node_wf(c));
            if given.at(c).board@ == board@ {
                crate::board::lemma_board_unique(given.at(c).board, board);
            }
        }
    }
    let mut tree = tree;
    if tree.advance(&board) {
        tree
    } else {
        Tree::new(board, tree.tables)
    }
}

/// Starts a new game: a tree of a single node for the starting position.
/// `None` only if the starting position could not be read.
pub fn uci_newgame(tables: MagicTables) -> (r: Option<Tree>)
    requires
        tables.wf(),
    ensures
        match r {
            Some(t) => t.wf() && t.quiet() && t.size() == 1 && t.tables == tables
                && read_fen(STARTPOS@) == Some(t.at(0).board@),
            None => !(read_fen(STARTPOS@) matches Some(p) && has_kings(p)),
        },
{
    match Board::from_fen(STARTPOS) {
        Some(board) => {
            if board.has_both_kings() {
                Some(Tree::new(board, tables))
            } else {
                None
            }
        },
        None => None,
    }
}

} // verus!
