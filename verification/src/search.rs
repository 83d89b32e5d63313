//! The search tree: nodes with their statistics, the order among siblings,
//! expansion, backpropagation and the stop predicate.
//!
//! Evaluations are kept in centipawns from White's side. The win
//! probability of a score grows strictly with the score and is one half at
//! zero, so every comparison of probabilities is made on centipawns.

use crate::board::Board;
use crate::eval::{centipawns, ending_of, evaluate};
use crate::text::{
    decimal, joined, push_glyph, push_integer, push_number, signed_decimal,
};
use crate::uci::UciGo;
use crate::magic::MagicTables;
use crate::board::Move;
use crate::move_gen::{
    bloom, bloomed, can_bloom, checked, has_kings, in_check, lists, notation, pseudo_legal,
    Candidate,
};
use std::cmp::Ordering;
use vstd::prelude::*;

verus! {

/// How a decided game ends. A win carries the number of moves to mate.
#[derive(Clone, Copy, PartialEq, Eq, Debug, Structural)]
pub enum Ending {
    Draw,
    WhiteWin(u32),
    BlackWin(u32),
}

/// A node of the search tree. Nodes live in the arena of a [`Tree`] and
/// name each other by their index in it.
#[derive(Debug)]
pub struct Node {
    /// The position that the node stands for.
    pub board: Board,
    /// The number of nodes of the subtree, as last counted.
    pub visits: u32,
    /// The height of the subtree: 0 until the node is expanded.
    pub depth: u32,
    /// The evaluation of the subtree in centipawns from White's side.
    pub eval: i32,
    /// How the game ends from here, once that is decided.
    pub ending: Option<Ending>,
    /// The children, empty until the node is expanded.
    pub children: Vec<usize>,
    /// The parent; the first root has none.
    pub parent: Option<usize>,
    /// The move that led here from the parent.
    pub last_move: Option<String>,
    /// The number of descents that are passing through the node.
    pub proc_threads: u32,
}

/// What an ending is worth to the side `white`: 2 for a win, 1 for a draw,
/// 0 for a loss.
pub open spec fn worth(e: Ending, white: bool) -> int {
    match e {
        Ending::Draw => 1,
        Ending::WhiteWin(_) => if white {
            2
        } else {
            0
        },
        Ending::BlackWin(_) => if white {
            0
        } else {
            2
        },
    }
}

/// The number of moves to mate of a decided game, 0 for a draw.
pub open spec fn moves_to_mate(e: Ending) -> int {
    match e {
        Ending::Draw => 0,
        Ending::WhiteWin(m) => m as int,
        Ending::BlackWin(m) => m as int,
    }
}

/// A count as a mathematical integer.
pub open spec fn number(n: u32) -> int {
    n as int
}

/// An evaluation as it looks to White, or to Black if `white` is false.
pub open spec fn seen(cp: i32, white: bool) -> int {
    if white {
        cp as int
    } else {
        -(cp as int)
    }
}

/// How two numbers compare.
pub open spec fn order_of(a: int, b: int) -> Ordering {
    if a < b {
        Ordering::Less
    } else if a > b {
        Ordering::Greater
    } else {
        Ordering::Equal
    }
}

/// How two siblings compare for the side that chooses between them, which
/// is the side not to move in them. Of two decided games a win beats a
/// draw and a draw a loss, a quicker win beats a slower one and a slower
/// loss a quicker one. A won game beats an undecided one, which beats a
/// lost one; a drawn game compares to an undecided one as a level score
/// compares to its evaluation. Of two undecided games the one with more
/// visits is greater, and with equal visits the one with the better
/// evaluation. Nodes with different sides to move do not compare.
pub open spec fn compare(a: Node, b: Node) -> Option<Ordering> {
    let white = !a.board.is_w_move;
    if a.board.is_w_move != b.board.is_w_move {
        None
    } else {
        Some(
            match (a.ending, b.ending) {
                (Some(x), Some(y)) => if worth(x, white) != worth(y, white) {
                    order_of(worth(x, white), worth(y, white))
                } else if worth(x, white) == 2 {
                    order_of(moves_to_mate(y), moves_to_mate(x))
                } else {
                    order_of(moves_to_mate(x), moves_to_mate(y))
                },
                (Some(x), None) => if worth(x, white) == 1 {
                    order_of(0, seen(b.eval, white))
                } else {
                    order_of(worth(x, white), 1)
                },
                (None, Some(y)) => if worth(y, white) == 1 {
                    order_of(seen(a.eval, white), 0)
                } else {
                    order_of(1, worth(y, white))
                },
                (None, None) => if a.visits != b.visits {
                    order_of(number(a.visits), number(b.visits))
                } else {
                    order_of(seen(a.eval, white), seen(b.eval, white))
                },
            },
        )
    }
}

/// Whether the node `a` is to be preferred to its sibling `b`: it compares
/// as greater.
pub open spec fn precedes(a: Node, b: Node) -> bool {
    compare(a, b) == Some(Ordering::Greater)
}

/// Whether the sibling `b` is to be preferred to the node `a`: `a` compares
/// as less.
pub open spec fn trails(a: Node, b: Node) -> bool {
    compare(a, b) == Some(Ordering::Less)
}

/// Whether the node `a` is to be preferred to its sibling `b`, or is as
/// good: it does not compare as less.
pub open spec fn at_least(a: Node, b: Node) -> bool {
    compare(a, b) != Some(Ordering::Less)
}

impl Node {
    /// A root node for a position: one visit, a level evaluation, no
    /// ending, no parent and no move.
    pub fn new(pos: Board) -> (n: Node)
        ensures
            n.board == pos,
            n.visits == 1,
            n.depth == 0,
            n.eval == 0,
            n.ending is None,
            n.children@.len() == 0,
            n.parent is None,
            n.last_move is None,
            n.proc_threads == 0,
    {
        Node {
            board: pos,
            visits: 1,
            depth: 0,
            eval: 0,
            ending: None,
            children: Vec::new(),
            parent: None,
            last_move: None,
            proc_threads: 0,
        }
    }

    /// Whether the node is the one that [`Node::spawn`] makes under the
    /// parent `leaf` from the position `board`, reached by the move written
    /// as `text`.
    pub open spec fn spawned(self, leaf: usize, board: Board, text: Seq<char>) -> bool {
        &&& self.board == board.turned()
        &&& self.visits == 1
        &&& self.depth == 0
        &&& self.eval == centipawns(self.board)
        &&& self.ending == ending_of(self.board)
        &&& self.children@.len() == 0
        &&& self.parent == Some(leaf)
        &&& self.last_move matches Some(s) && s@ == text
        &&& self.proc_threads == 0
    }

    /// A child node under the parent `leaf`. The position `board` is the
    /// one after the pieces have moved; the turn is handed over here, and
    /// the resulting position is evaluated.
    pub fn spawn(leaf: usize, board: Board, last_move: String) -> (n: Node)
        requires
            board.fullmove_clock < u32::MAX,
        ensures
            n.spawned(leaf, board, last_move@),
    {
        let mut board = board;
        board.pass_turn();
        let (end, eval) = evaluate(&board);
        Node {
            board,
            visits: 1,
            depth: 0,
            eval,
            ending: end,
            children: Vec::new(),
            parent: Some(leaf),
            last_move: Some(last_move),
            proc_threads: 0,
        }
    }
}

/// The search tree: an arena of nodes, the node that is the root of the
/// search, the nodes at which the descents under way stand, and the attack
/// tables that the positions are searched with.
pub struct Tree {
    pub nodes: Vec<Node>,
    pub root: usize,
    pub cursors: Vec<usize>,
    pub tables: MagicTables,
}

impl Tree {
    /// The node with index `i`.
    pub open spec fn at(&self, i: int) -> Node {
        self.nodes@[i]
    }

    /// The number of nodes.
    pub open spec fn size(&self) -> int {
        self.nodes@.len() as int
    }

    /// What holds of each node: its position is well formed with both
    /// kings on the board; its parent comes before it and lists it as a
    /// child, and the move from the parent is known; its children come
    /// after it, each naming it as parent and having the other side to
    /// move; its height is at most the number of nodes from it on, and
    /// at most 1 without children, and above the number of moves of a
    /// decided win.
    pub open spec fn node_wf(&self, i: int) -> bool {
        let n = self.at(i);
        &&& n.board.wf()
        &&& has_kings(n.board@)
        &&& (n.parent matches Some(p) ==> p < i && self.at(p as int).children@.contains(i as usize)
            && n.last_move is Some)
        &&& forall|k: int|
            0 <= k < n.children@.len() ==> {
                let c = #[trigger] n.children@[k];
                &&& i < c < self.size()
                &&& self.at(c as int).parent == Some(i as usize)
                &&& self.at(c as int).board.is_w_move != n.board.is_w_move
            }
        &&& n.children@.len() <= self.size()
        &&& n.depth <= self.size() - i
        &&& (n.children@.len() == 0 ==> n.depth <= 1)
        &&& match n.ending {
            Some(Ending::WhiteWin(m)) => m < n.depth,
            Some(Ending::BlackWin(m)) => m < n.depth,
            _ => true,
        }
    }

    /// The shape of a tree: there are nodes, no more than a 32-bit count
    /// can number, the root is one of them, each node is well formed, and
    /// so are the tables.
    pub open spec fn shaped(&self) -> bool {
        &&& 0 < self.size() <= u32::MAX
        &&& self.root < self.size()
        &&& self.tables.wf()
        &&& forall|i: int| 0 <= i < self.size() ==> #[trigger] self.node_wf(i)
    }

    /// No descent is under way.
    pub open spec fn quiet(&self) -> bool {
        self.cursors@.len() == 0
    }

    /// The number of nodes.
    pub fn len(&self) -> (n: usize)
        ensures
            n == self.size(),
    {
        self.nodes.len()
    }

    /// The node with index `i`.
    pub fn node(&self, i: usize) -> (n: &Node)
        requires
            i < self.size(),
        ensures
            *n == self.at(i as int),
    {
        &self.nodes[i]
    }

    /// The position at the root.
    pub fn root_board(&self) -> (b: Board)
        requires
            self.root < self.size(),
        ensures
            b == self.at(self.root as int).board,
    {
        self.nodes[self.root].board
    }
}

/// Whether two nodes have the same statistics.
pub open spec fn same_stats(a: Node, b: Node) -> bool {
    a.visits == b.visits && a.depth == b.depth && a.eval == b.eval && a.ending == b.ending
}

/// Whether the node has the statistics of an expanded node without legal
/// moves: height 1, one visit, a level score and the ending of its
/// position, a win in no moves for the side that gives check or a draw.
pub open spec fn at_dead_end(n: Node, t: MagicTables) -> bool {
    n.depth == 1 && n.visits == 1 && n.eval == 0 && n.ending == Some(dead_end(n.board, t))
}

/// The smaller of two numbers.
pub open spec fn least(a: int, b: int) -> int {
    if a <= b {
        a
    } else {
        b
    }
}

/// The larger of two numbers.
pub open spec fn most(a: int, b: int) -> int {
    if a >= b {
        a
    } else {
        b
    }
}

/// Whether an ending is a win for White (`white`) or for Black.
pub open spec fn is_win(e: Option<Ending>, white: bool) -> bool {
    match e {
        Some(Ending::WhiteWin(_)) => white,
        Some(Ending::BlackWin(_)) => !white,
        _ => false,
    }
}

/// The ending of a position without legal moves: a win in no moves for the
/// side that gives check, a draw if there is no check.
pub open spec fn dead_end(b: Board, t: MagicTables) -> Ending {
    if checked(b, t) {
        if b.is_w_move {
            Ending::BlackWin(0)
        } else {
            Ending::WhiteWin(0)
        }
    } else {
        Ending::Draw
    }
}

impl Tree {
    /// The `j`-th child of the node `n`.
    pub open spec fn kid(&self, n: int, j: int) -> Node {
        self.at(self.at(n).children@[j] as int)
    }

    /// The sum of the visits of the first `k` children of `n`.
    pub open spec fn visits_sum(&self, n: int, k: nat) -> int
        decreases k,
    {
        if k == 0 {
            0
        } else {
            self.visits_sum(n, (k - 1) as nat) + self.kid(n, k - 1).visits
        }
    }

    /// The greatest height among the first `k` children of `n`, 0 if there
    /// is none.
    pub open spec fn depth_max(&self, n: int, k: nat) -> int
        decreases k,
    {
        if k == 0 {
            0
        } else {
            most(self.depth_max(n, (k - 1) as nat), self.kid(n, k - 1).depth as int)
        }
    }

    /// The evaluation that the side to move at `n` picks among the first
    /// `k` children: the greatest for White, the least for Black; a level
    /// score if there is no child.
    pub open spec fn eval_best(&self, n: int, k: nat) -> int
        decreases k,
    {
        if k == 0 {
            0
        } else if k == 1 {
            self.kid(n, 0).eval as int
        } else if self.at(n).board.is_w_move {
            most(self.eval_best(n, (k - 1) as nat), self.kid(n, k - 1).eval as int)
        } else {
            least(self.eval_best(n, (k - 1) as nat), self.kid(n, k - 1).eval as int)
        }
    }

    /// The number of wins for `white` among the first `k` children of `n`.
    pub open spec fn wins(&self, n: int, k: nat, white: bool) -> nat
        decreases k,
    {
        if k == 0 {
            0
        } else {
            self.wins(n, (k - 1) as nat, white) + if is_win(self.kid(n, k - 1).ending, white) {
                1nat
            } else {
                0nat
            }
        }
    }

    /// The number of draws among the first `k` children of `n`.
    pub open spec fn draws(&self, n: int, k: nat) -> nat
        decreases k,
    {
        if k == 0 {
            0
        } else {
            self.draws(n, (k - 1) as nat) + if self.kid(n, k - 1).ending == Some(Ending::Draw) {
                1nat
            } else {
                0nat
            }
        }
    }

    /// The least number of moves to mate among the wins for `white` in the
    /// first `k` children of `n`; the largest 32-bit number if there is no
    /// such win.
    pub open spec fn quickest(&self, n: int, k: nat, white: bool) -> int
        decreases k,
    {
        if k == 0 {
            u32::MAX as int
        } else if is_win(self.kid(n, k - 1).ending, white) {
            least(
                self.quickest(n, (k - 1) as nat, white),
                moves_to_mate(self.kid(n, k - 1).ending.unwrap()),
            )
        } else {
            self.quickest(n, (k - 1) as nat, white)
        }
    }

    /// The greatest number of moves to mate among the wins for `white` in
    /// the first `k` children of `n`; 0 if there is no such win.
    pub open spec fn slowest(&self, n: int, k: nat, white: bool) -> int
        decreases k,
    {
        if k == 0 {
            0
        } else if is_win(self.kid(n, k - 1).ending, white) {
            most(
                self.slowest(n, (k - 1) as nat, white),
                moves_to_mate(self.kid(n, k - 1).ending.unwrap()),
            )
        } else {
            self.slowest(n, (k - 1) as nat, white)
        }
    }

    /// The ending that the children of `n` decide for it. With `mover` the
    /// side to move at `n`: if a child is a win for the mover, a win for
    /// the mover one move after the quickest such child; else if every
    /// child is a draw or a win for the other side, with a draw among
    /// them, a draw; else if every child is a win for the other side, such
    /// a win one move after the slowest child; else none.
    pub open spec fn ending_rule(&self, n: int) -> Option<Ending> {
        let k = self.at(n).children@.len();
        let mover = self.at(n).board.is_w_move;
        let win = |m: int|
            if mover {
                Ending::WhiteWin(m as u32)
            } else {
                Ending::BlackWin(m as u32)
            };
        let loss = |m: int|
            if mover {
                Ending::BlackWin(m as u32)
            } else {
                Ending::WhiteWin(m as u32)
            };
        if self.wins(n, k, mover) > 0 {
            Some(win(self.quickest(n, k, mover) + 1))
        } else if self.draws(n, k) > 0 && self.draws(n, k) + self.wins(n, k, !mover) == k {
            Some(Ending::Draw)
        } else if self.wins(n, k, !mover) == k {
            Some(loss(self.slowest(n, k, !mover) + 1))
        } else {
            None
        }
    }

    /// Whether the statistics of the node `n` are those that its children
    /// give it. A node that was never expanded has nothing to agree with.
    /// A node without legal moves has one visit, a level score and the
    /// ending of its position. Any other node has one visit more than its
    /// children together (at most the largest 32-bit number), one more
    /// than the height of its highest child, the evaluation that the side
    /// to move picks among its children, and the ending that they decide.
    pub open spec fn settled(&self, t: MagicTables, n: int) -> bool {
        let node = self.at(n);
        let k = node.children@.len();
        if k == 0 {
            node.depth == 0 || (node.visits == 1 && node.eval == 0 && node.ending == Some(
                dead_end(node.board, t),
            ))
        } else {
            &&& node.visits == least(1 + self.visits_sum(n, k), u32::MAX as int)
            &&& node.depth == 1 + self.depth_max(n, k)
            &&& node.eval == self.eval_best(n, k)
            &&& node.ending == self.ending_rule(n)
        }
    }

    /// Whether the node `i` lies on the way from the node `n` up to the
    /// first root.
    pub open spec fn on_path(&self, n: int, i: int) -> bool
        decreases n,
    {
        i == n || (0 < n < self.size() && (self.at(n).parent matches Some(p) && p < n
            && self.on_path(p as int, i)))
    }

    /// Whether two trees have the same shape: the same tables and the same
    /// nodes with the same positions, children, parents and moves.
    pub open spec fn same_shape(&self, other: Tree) -> bool {
        &&& self.size() == other.size()
        &&& self.root == other.root
        &&& self.tables == other.tables
        &&& forall|i: int|
            0 <= i < self.size() ==> {
                let a = #[trigger] self.at(i);
                let b = other.at(i);
                &&& a.board == b.board
                &&& a.children@ == b.children@
                &&& a.parent == b.parent
                &&& a.last_move == b.last_move
            }
    }

    /// Whether the nodes of two trees have the same statistics, but perhaps
    /// for the node `n`.
    pub open spec fn same_stats_but(&self, other: Tree, n: int) -> bool {
        forall|i: int|
            0 <= i < self.size() && i != n ==> {
                let a = #[trigger] self.at(i);
                let b = other.at(i);
                &&& a.visits == b.visits
                &&& a.depth == b.depth
                &&& a.eval == b.eval
                &&& a.ending == b.ending
            }
    }

    /// Whether the nodes of two trees have the same statistics.
    pub open spec fn same_stats_all(&self, other: Tree) -> bool {
        self.same_stats_but(other, -1)
    }

    /// Whether two trees count the same descents at every node.
    pub open spec fn same_counters(&self, other: Tree) -> bool {
        forall|i: int|
            0 <= i < self.size() ==> (#[trigger] self.at(i)).proc_threads == other.at(
                i,
            ).proc_threads
    }
}

/// What the children give a node depends on the children alone.
proof fn lemma_folds_frame(a: Tree, b: Tree, n: int, k: nat)
    requires
        a.at(n).children@ == b.at(n).children@,
        a.at(n).board == b.at(n).board,
        k <= a.at(n).children@.len(),
        forall|j: int|
            0 <= j < k ==> {
                let x = #[trigger] a.kid(n, j);
                let y = b.kid(n, j);
                x.visits == y.visits && x.depth == y.depth && x.eval == y.eval && x.ending
                    == y.ending
            },
    ensures
        a.visits_sum(n, k) == b.visits_sum(n, k),
        a.depth_max(n, k) == b.depth_max(n, k),
        a.eval_best(n, k) == b.eval_best(n, k),
        a.draws(n, k) == b.draws(n, k),
        a.wins(n, k, true) == b.wins(n, k, true),
        a.wins(n, k, false) == b.wins(n, k, false),
        a.quickest(n, k, true) == b.quickest(n, k, true),
        a.quickest(n, k, false) == b.quickest(n, k, false),
        a.slowest(n, k, true) == b.slowest(n, k, true),
        a.slowest(n, k, false) == b.slowest(n, k, false),
    decreases k,
{
    if k > 0 {
        lemma_folds_frame(a, b, n, (k - 1) as nat);
        let x = a.kid(n, k - 1);
        if k > 1 {
            let z = a.kid(n, 0);
        }
        assert(a.at(n).board == b.at(n).board);
    }
}

/// A node stays settled while its children keep their statistics.
proof fn lemma_settled_frame(a: Tree, b: Tree, t: MagicTables, n: int, changed: int)
    requires
        a.shaped(),
        a.same_shape(b),
        a.same_stats_but(b, changed),
        0 <= n < a.size(),
        0 <= changed < a.size(),
        n != changed,
        a.at(changed).parent != Some(n as usize),
    ensures
        a.settled(t, n) == b.settled(t, n),
{
    let k = a.at(n).children@.len();
    assert(a.node_wf(n));
    assert forall|j: int| 0 <= j < k implies {
        let x = #[trigger] a.kid(n, j);
        let y = b.kid(n, j);
        x.visits == y.visits && x.depth == y.depth && x.eval == y.eval && x.ending == y.ending
    } by {
        let c = a.at(n).children@[j];
        assert(a.at(c as int).parent == Some(n as usize));
        assert(c != changed);
        assert(a.at(c as int).visits == b.at(c as int).visits);
    }
    lemma_folds_frame(a, b, n, k);
    assert(a.at(n).visits == b.at(n).visits);
}

/// The height of a child is below what the arena leaves after its parent,
/// and a win among the children is quicker than the highest child is
/// high.
proof fn lemma_folds_bounds(a: Tree, n: int, k: nat)
    requires
        a.shaped(),
        0 <= n < a.size(),
        k <= a.at(n).children@.len(),
    ensures
        0 <= a.depth_max(n, k) <= a.size() - n - 1,
        0 <= a.visits_sum(n, k) <= k * u32::MAX,
        a.wins(n, k, true) + a.wins(n, k, false) + a.draws(n, k) <= k,
        a.wins(n, k, true) > 0 ==> 0 <= a.quickest(n, k, true) < a.depth_max(n, k),
        a.wins(n, k, false) > 0 ==> 0 <= a.quickest(n, k, false) < a.depth_max(n, k),
        a.wins(n, k, true) > 0 ==> 0 <= a.slowest(n, k, true) < a.depth_max(n, k),
        a.wins(n, k, false) > 0 ==> 0 <= a.slowest(n, k, false) < a.depth_max(n, k),
        a.wins(n, k, true) == 0 ==> a.quickest(n, k, true) == u32::MAX && a.slowest(n, k, true)
            == 0,
        a.wins(n, k, false) == 0 ==> a.quickest(n, k, false) == u32::MAX && a.slowest(
            n,
            k,
            false,
        ) == 0,
    decreases k,
{
    assert(a.node_wf(n));
    if k > 0 {
        lemma_folds_bounds(a, n, (k - 1) as nat);
        let c = a.at(n).children@[k - 1];
        assert(a.node_wf(c as int));
        let x = a.kid(n, k - 1);
        assert((k - 1) * u32::MAX + u32::MAX == k * u32::MAX) by (nonlinear_arith);
    }
}

impl Tree {
    /// Whether the node `i` lies on the way from the node `n` up to the
    /// root of the search.
    pub open spec fn on_route(&self, n: int, i: int) -> bool
        decreases n,
    {
        i == n || (n != self.root && 0 < n < self.size() && (self.at(n).parent matches Some(p)
            && p < n && self.on_route(p as int, i)))
    }

    /// The number of the descents standing at the nodes `cs` that pass
    /// through the node `i` on their way from the root.
    pub open spec fn passing(&self, cs: Seq<usize>, i: int) -> int
        decreases cs.len(),
    {
        if cs.len() == 0 {
            0
        } else {
            self.passing(cs.drop_last(), i) + if self.on_route(cs.last() as int, i) {
                1int
            } else {
                0int
            }
        }
    }

    /// The counters agree with the descents under way: each descent stands
    /// at a node below the root, and each node counts the descents that
    /// pass through it.
    pub open spec fn counted(&self) -> bool {
        &&& self.cursors@.len() <= u32::MAX
        &&& forall|k: int|
            0 <= k < self.cursors@.len() ==> (#[trigger] self.cursors@[k]) < self.size()
                && self.on_route(self.cursors@[k] as int, self.root as int)
        &&& forall|i: int|
            0 <= i < self.size() ==> (#[trigger] self.at(i)).proc_threads == self.passing(
                self.cursors@,
                i,
            )
    }

    /// Every node has the statistics that its children give it.
    pub open spec fn all_settled(&self) -> bool {
        forall|n: int| 0 <= n < self.size() ==> #[trigger] self.settled(self.tables, n)
    }

    /// The invariant of the tree between the steps of a search: it has its
    /// shape, every node has the statistics that its children give it, and
    /// each node counts the descents under way that pass through it.
    pub open spec fn wf(&self) -> bool {
        &&& self.shaped()
        &&& self.all_settled()
        &&& self.counted()
    }

    /// A tree of one node, the root, for a position.
    pub fn new(board: Board, tables: MagicTables) -> (t: Tree)
        requires
            board.wf(),
            has_kings(board@),
            tables.wf(),
        ensures
            t.wf(),
            t.size() == 1,
            t.root == 0,
            t.quiet(),
            t.tables == tables,
            t.at(0).board == board,
            t.at(0).visits == 1,
            t.at(0).depth == 0,
            t.at(0).eval == 0,
            t.at(0).ending is None,
            t.at(0).children@.len() == 0,
    {
        let mut nodes: Vec<Node> = Vec::new();
        nodes.push(Node::new(board));
        let t = Tree { nodes, root: 0, cursors: Vec::new(), tables };
        assert(t.node_wf(0));
        assert(t.settled(t.tables, 0));
        t
    }
}

/// The nodes on the way from a node up come before it.
proof fn lemma_route_below(t: Tree, n: int, i: int)
    requires
        t.on_route(n, i) || t.on_path(n, i),
    ensures
        i <= n,
    decreases n,
{
    if i != n {
        let p = t.at(n).parent.unwrap();
        lemma_route_below(t, p as int, i);
    }
}

/// No more descents pass through a node than there are.
proof fn lemma_passing_bounds(t: Tree, cs: Seq<usize>, i: int)
    ensures
        0 <= t.passing(cs, i) <= cs.len(),
    decreases cs.len(),
{
    if cs.len() > 0 {
        lemma_passing_bounds(t, cs.drop_last(), i);
    }
}

/// The descents that pass through a node depend on the shape alone.
proof fn lemma_passing_same(a: Tree, b: Tree, cs: Seq<usize>, i: int)
    requires
        a.same_shape(b),
    ensures
        a.passing(cs, i) == b.passing(cs, i),
    decreases cs.len(),
{
    if cs.len() > 0 {
        lemma_passing_same(a, b, cs.drop_last(), i);
        lemma_same_route(a, b, cs.last() as int, i);
    }
}

/// A descent that ends passes through its nodes no more.
proof fn lemma_passing_remove(t: Tree, cs: Seq<usize>, k: int, i: int)
    requires
        0 <= k < cs.len(),
    ensures
        t.passing(cs.remove(k), i) == t.passing(cs, i) - if t.on_route(cs[k] as int, i) {
            1int
        } else {
            0int
        },
    decreases cs.len(),
{
    if k == cs.len() - 1 {
        assert(cs.remove(k) =~= cs.drop_last());
    } else {
        lemma_passing_remove(t, cs.drop_last(), k, i);
        assert(cs.remove(k).drop_last() =~= cs.drop_last().remove(k));
        assert(cs.remove(k).last() == cs.last());
    }
}

/// A descent that moves passes through the nodes of its new way.
proof fn lemma_passing_update(t: Tree, cs: Seq<usize>, k: int, c: usize, i: int)
    requires
        0 <= k < cs.len(),
    ensures
        t.passing(cs.update(k, c), i) == t.passing(cs, i) - (if t.on_route(cs[k] as int, i) {
            1int
        } else {
            0int
        }) + (if t.on_route(c as int, i) {
            1int
        } else {
            0int
        }),
    decreases cs.len(),
{
    if k == cs.len() - 1 {
        assert(cs.update(k, c).drop_last() =~= cs.drop_last());
    } else {
        lemma_passing_update(t, cs.drop_last(), k, c, i);
        assert(cs.update(k, c).drop_last() =~= cs.drop_last().update(k, c));
        assert(cs.update(k, c).last() == cs.last());
    }
}

/// A descent that starts passes through the nodes of its way.
proof fn lemma_passing_push(t: Tree, cs: Seq<usize>, c: usize, i: int)
    ensures
        t.passing(cs.push(c), i) == t.passing(cs, i) + if t.on_route(c as int, i) {
            1int
        } else {
            0int
        },
{
    assert(cs.push(c).drop_last() =~= cs);
}

/// Ends the descent with index `k`: the nodes from where it stands up to
/// the root each count one descent less.
#[verifier::rlimit(40)]
fn finish(tree: &mut Tree, k: usize)
    requires
        old(tree).shaped(),
        old(tree).counted(),
        k < old(tree).cursors@.len(),
    ensures
        final(tree).shaped(),
        final(tree).counted(),
        final(tree).cursors@ == old(tree).cursors@.remove(k as int),
        final(tree).same_shape(*old(tree)),
        final(tree).same_stats_all(*old(tree)),
{
    let ghost given = *tree;
    let node: usize = tree.cursors.remove(k);
    let ghost rest = tree.cursors@;
    let ghost start = *tree;
    proof {
        lemma_descents_only(given, start);
        assert forall|i: int| 0 <= i < start.size() implies (#[trigger] start.at(i)).proc_threads
            == start.passing(rest, i) + (if start.on_route(node as int, i) {
            1int
        } else {
            0int
        }) by {
            assert(start.at(i) == given.at(i));
            lemma_passing_remove(given, given.cursors@, k as int, i);
            lemma_passing_same(start, given, rest, i);
            lemma_same_route(start, given, node as int, i);
        }
    }
    let mut cur: usize = node;
    loop
        invariant_except_break
            cur < tree.size(),
            forall|i: int|
                0 <= i < tree.size() ==> (#[trigger] tree.at(i)).proc_threads == tree.passing(
                    rest,
                    i,
                ) + (if tree.on_route(cur as int, i) {
                    1int
                } else {
                    0int
                }),
        invariant
            tree.shaped(),
            tree.same_shape(given),
            tree.same_stats_all(given),
            tree.cursors@ == rest,
            given == *old(tree),
        ensures
            forall|i: int|
                0 <= i < tree.size() ==> (#[trigger] tree.at(i)).proc_threads == tree.passing(
                    rest,
                    i,
                ),
        decreases cur,
    {
        let ghost before = *tree;
        proof {
            assert(before.on_route(cur as int, cur as int));
            assert(before.node_wf(cur as int));
            lemma_passing_bounds(before, rest, cur as int);
        }
        tree.nodes[cur].proc_threads = tree.nodes[cur].proc_threads - 1;
        proof {
            lemma_counters_only(before, *tree, cur as int);
        }
        let up = tree.nodes[cur].parent;
        if cur == tree.root || up.is_none() {
            proof {
                assert forall|i: int| 0 <= i < tree.size() implies (#[trigger] tree.at(
                    i,
                )).proc_threads == tree.passing(rest, i) by {
                    assert(before.at(i).proc_threads == before.passing(rest, i) + (
                    if before.on_route(cur as int, i) {
                        1int
                    } else {
                        0int
                    }));
                    lemma_passing_same(*tree, before, rest, i);
                }
            }
            break ;
        }
        let p = up.unwrap();
        proof {
            assert forall|i: int| 0 <= i < tree.size() implies (#[trigger] tree.at(
                i,
            )).proc_threads == tree.passing(rest, i) + (if tree.on_route(p as int, i) {
                1int
            } else {
                0int
            }) by {
                assert(before.at(i).proc_threads == before.passing(rest, i) + (
                if before.on_route(cur as int, i) {
                    1int
                } else {
                    0int
                }));
                lemma_passing_same(*tree, before, rest, i);
                lemma_same_route(before, *tree, p as int, i);
                if tree.on_route(p as int, i) {
                    lemma_route_below(*tree, p as int, i);
                }
            }
        }
        cur = p;
    }
    proof {
        assert forall|j: int| 0 <= j < rest.len() implies (#[trigger] rest[j]) < tree.size()
            && tree.on_route(rest[j] as int, tree.root as int) by {
            let from = if j < k {
                j
            } else {
                j + 1
            };
            assert(rest[j] == given.cursors@[from]);
            lemma_same_route(*tree, given, rest[j] as int, tree.root as int);
        }
    }
}

/// The index of the first descent that stands at `node`.
fn index_of(tree: &Tree, node: usize) -> (k: usize)
    requires
        tree.cursors@.contains(node),
    ensures
        tree.first_at(node, k as int),
{
    let n: usize = tree.cursors.len();
    let mut k: usize = 0;
    proof {
        let w = choose|w: int| 0 <= w < tree.cursors@.len() && tree.cursors@[w] == node;
    }
    loop
        invariant
            n == tree.cursors@.len(),
            k < n,
            tree.cursors@.contains(node),
            forall|j: int| 0 <= j < k ==> tree.cursors@[j] != node,
        decreases n - k,
    {
        if tree.cursors[k] == node {
            return k;
        }
        proof {
            let w = choose|w: int| 0 <= w < tree.cursors@.len() && tree.cursors@[w] == node;
            assert(w > k);
        }
        k = k + 1;
    }
}

/// Ends a descent that stands at `node`: the nodes from `node` up to the
/// root each count one descent less.
pub fn decr_proc_threads(tree: &mut Tree, node: usize)
    requires
        old(tree).shaped(),
        old(tree).counted(),
        old(tree).cursors@.contains(node),
    ensures
        final(tree).shaped(),
        final(tree).counted(),
        final(tree).same_shape(*old(tree)),
        final(tree).same_stats_all(*old(tree)),
        exists|k: int|
            #[trigger] old(tree).first_at(node, k) && final(tree).cursors@ == old(
                tree,
            ).cursors@.remove(k),
{
    let k = index_of(tree, node);
    finish(tree, k);
}

/// Routes and paths follow the parents alone.
proof fn lemma_same_route(a: Tree, b: Tree, n: int, i: int)
    requires
        a.same_shape(b),
    ensures
        a.on_route(n, i) == b.on_route(n, i),
        a.on_path(n, i) == b.on_path(n, i),
    decreases n,
{
    if i != n && 0 < n < a.size() {
        match a.at(n).parent {
            Some(p) => {
                if p < n {
                    lemma_same_route(a, b, p as int, i);
                }
            },
            None => {},
        }
    }
}

/// A tree that differs from another in the counter of one node only has
/// the same shape and statistics.
proof fn lemma_counters_only(a: Tree, b: Tree, n: int)
    requires
        a.shaped(),
        0 <= n < a.size(),
        b.size() == a.size(),
        b.root == a.root,
        b.tables == a.tables,
        forall|i: int| 0 <= i < a.size() && i != n ==> #[trigger] b.at(i) == a.at(i),
        b.at(n).board == a.at(n).board,
        b.at(n).visits == a.at(n).visits,
        b.at(n).depth == a.at(n).depth,
        b.at(n).eval == a.at(n).eval,
        b.at(n).ending == a.at(n).ending,
        b.at(n).children == a.at(n).children,
        b.at(n).parent == a.at(n).parent,
        b.at(n).last_move == a.at(n).last_move,
    ensures
        b.shaped(),
        b.same_shape(a),
        b.same_stats_all(a),
        a.all_settled() ==> b.all_settled(),
{
    assert forall|i: int| 0 <= i < b.size() implies #[trigger] b.node_wf(i) by {
        assert(a.node_wf(i));
        let x = b.at(i);
        assert forall|k: int| 0 <= k < x.children@.len() implies {
            let c = #[trigger] x.children@[k];
            &&& i < c < b.size()
            &&& b.at(c as int).parent == Some(i as usize)
            &&& b.at(c as int).board.is_w_move != x.board.is_w_move
        } by {
            let c = a.at(i).children@[k];
            assert(i < c < a.size());
        }
        match x.parent {
            Some(p) => {
                assert(a.at(p as int).children@.contains(i as usize));
                assert(b.at(p as int).children@ == a.at(p as int).children@);
            },
            None => {},
        }
    }
    assert forall|i: int| 0 <= i < b.size() implies {
        let x = #[trigger] b.at(i);
        let y = a.at(i);
        x.board == y.board && x.children@ == y.children@ && x.parent == y.parent && x.last_move
            == y.last_move
    } by {}
    if a.all_settled() {
        assert forall|i: int| 0 <= i < b.size() implies #[trigger] b.settled(b.tables, i) by {
            assert(a.settled(a.tables, i));
            lemma_settled_same(b, a, i);
        }
    }
}

/// Trees with the same shape and statistics have the same nodes settled.
proof fn lemma_settled_same(a: Tree, b: Tree, n: int)
    requires
        a.shaped(),
        a.same_shape(b),
        a.same_stats_all(b),
        0 <= n < a.size(),
    ensures
        a.settled(a.tables, n) == b.settled(b.tables, n),
{
    let k = a.at(n).children@.len();
    assert(a.node_wf(n));
    assert forall|j: int| 0 <= j < k implies {
        let x = #[trigger] a.kid(n, j);
        let y = b.kid(n, j);
        x.visits == y.visits && x.depth == y.depth && x.eval == y.eval && x.ending == y.ending
    } by {
        let c = a.at(n).children@[j];
        assert(a.at(c as int).visits == b.at(c as int).visits);
    }
    lemma_folds_frame(a, b, n, k);
    assert(a.at(n).visits == b.at(n).visits);
}

/// A tree that differs from another in the statistics of one node only,
/// which keep within the bounds of the shape, has the same shape.
proof fn lemma_stats_only(a: Tree, b: Tree, n: int)
    requires
        a.shaped(),
        0 <= n < a.size(),
        b.size() == a.size(),
        b.root == a.root,
        b.cursors == a.cursors,
        b.tables == a.tables,
        forall|i: int| 0 <= i < a.size() && i != n ==> #[trigger] b.at(i) == a.at(i),
        b.at(n).board == a.at(n).board,
        b.at(n).children == a.at(n).children,
        b.at(n).parent == a.at(n).parent,
        b.at(n).last_move == a.at(n).last_move,
        b.at(n).proc_threads == a.at(n).proc_threads,
        b.at(n).depth <= a.size() - n,
        b.at(n).children@.len() == 0 ==> b.at(n).depth <= 1,
        match b.at(n).ending {
            Some(Ending::WhiteWin(m)) => m < b.at(n).depth,
            Some(Ending::BlackWin(m)) => m < b.at(n).depth,
            _ => true,
        },
    ensures
        b.shaped(),
        b.same_shape(a),
        b.same_stats_but(a, n),
        b.same_counters(a),
{
    assert forall|i: int| 0 <= i < b.size() implies #[trigger] b.node_wf(i) by {
        assert(a.node_wf(i));
        let x = b.at(i);
        assert forall|k: int| 0 <= k < x.children@.len() implies {
            let c = #[trigger] x.children@[k];
            &&& i < c < b.size()
            &&& b.at(c as int).parent == Some(i as usize)
            &&& b.at(c as int).board.is_w_move != x.board.is_w_move
        } by {
            let c = a.at(i).children@[k];
            assert(i < c < a.size());
        }
        match x.parent {
            Some(p) => {
                assert(a.at(p as int).children@.contains(i as usize));
                assert(b.at(p as int).children@ == a.at(p as int).children@);
            },
            None => {},
        }
    }
    assert forall|i: int| 0 <= i < b.size() implies {
        let x = #[trigger] b.at(i);
        let y = a.at(i);
        x.board == y.board && x.children@ == y.children@ && x.parent == y.parent && x.last_move
            == y.last_move
    } by {}
}

/// Moving the descents leaves the nodes as they are.
proof fn lemma_descents_only(a: Tree, b: Tree)
    requires
        a.shaped(),
        b.nodes == a.nodes,
        b.root == a.root,
        b.tables == a.tables,
    ensures
        b.shaped(),
        b.same_shape(a),
        b.same_stats_all(a),
        b.same_counters(a),
        a.all_settled() ==> b.all_settled(),
{
    lemma_counters_only(a, b, 0);
}

/// Recomputes the statistics of a node from its children.
#[verifier::rlimit(40)]
fn recompute(tree: &mut Tree, node: usize)
    requires
        old(tree).shaped(),
        node < old(tree).size(),
        old(tree).at(node as int).children@.len() == 0 ==> old(tree).at(node as int).depth >= 1,
    ensures
        final(tree).shaped(),
        final(tree).same_shape(*old(tree)),
        final(tree).same_stats_but(*old(tree), node as int),
        final(tree).same_counters(*old(tree)),
        final(tree).cursors == old(tree).cursors,
        final(tree).settled(final(tree).tables, node as int),
        old(tree).at(node as int).children@.len() == 0 ==> final(tree).at(node as int).depth
            == old(tree).at(node as int).depth,
{
    let ghost before = *tree;
    let ghost n = node as int;
    assert(before.node_wf(n));
    let k: usize = tree.nodes[node].children.len();
    let white: bool = tree.nodes[node].board.is_w_move;
    if k == 0 {
        let board = tree.nodes[node].board;
        let end = if in_check(&board, &tree.tables) {
            if white {
                Ending::BlackWin(0)
            } else {
                Ending::WhiteWin(0)
            }
        } else {
            Ending::Draw
        };
        tree.nodes[node].visits = 1;
        tree.nodes[node].eval = 0;
        tree.nodes[node].ending = Some(end);
        proof {
            lemma_stats_only(before, *tree, n);
        }
        return ;
    }
    let mut sum: u64 = 0;
    let mut dmax: u32 = 0;
    let mut best: i32 = 0;
    let mut w_wins: usize = 0;
    let mut b_wins: usize = 0;
    let mut draws: usize = 0;
    let mut fast_w: u32 = u32::MAX;
    let mut slow_w: u32 = 0;
    let mut fast_b: u32 = u32::MAX;
    let mut slow_b: u32 = 0;
    let mut j: usize = 0;
    while j < k
        invariant
            j <= k,
            k == tree.at(n).children@.len(),
            *tree == before,
            before.shaped(),
            n == node,
            0 <= n < before.size(),
            white == before.at(n).board.is_w_move,
            sum == before.visits_sum(n, j as nat),
            dmax == before.depth_max(n, j as nat),
            best == before.eval_best(n, j as nat),
            w_wins == before.wins(n, j as nat, true),
            b_wins == before.wins(n, j as nat, false),
            draws == before.draws(n, j as nat),
            fast_w == before.quickest(n, j as nat, true),
            slow_w == before.slowest(n, j as nat, true),
            fast_b == before.quickest(n, j as nat, false),
            slow_b == before.slowest(n, j as nat, false),
        decreases k - j,
    {
        proof {
            lemma_folds_bounds(before, n, j as nat);
            lemma_folds_bounds(before, n, (j + 1) as nat);
            assert(before.node_wf(n));
            assert(j * u32::MAX + u32::MAX <= 0xffff_ffff * 0xffff_ffff) by (nonlinear_arith)
                requires
                    j < k,
                    k <= 0xffff_ffff,
            ;
        }
        let c: usize = tree.nodes[node].children[j];
        let child = &tree.nodes[c];
        assert(*child == before.kid(n, j as int));
        sum = sum + child.visits as u64;
        if child.depth > dmax {
            dmax = child.depth;
        }
        if j == 0 {
            best = child.eval;
        } else if white {
            if child.eval > best {
                best = child.eval;
            }
        } else {
            if child.eval < best {
                best = child.eval;
            }
        }
        match child.ending {
            Some(Ending::Draw) => {
                draws = draws + 1;
            },
            Some(Ending::WhiteWin(m)) => {
                w_wins = w_wins + 1;
                if m < fast_w {
                    fast_w = m;
                }
                if m > slow_w {
                    slow_w = m;
                }
            },
            Some(Ending::BlackWin(m)) => {
                b_wins = b_wins + 1;
                if m < fast_b {
                    fast_b = m;
                }
                if m > slow_b {
                    slow_b = m;
                }
            },
            None => {},
        }
        j = j + 1;
    }
    proof {
        lemma_folds_bounds(before, n, k as nat);
    }
    let visits: u32 = if sum >= u32::MAX as u64 {
        u32::MAX
    } else {
        (sum + 1) as u32
    };
    let mover_wins = if white {
        w_wins
    } else {
        b_wins
    };
    let other_wins = if white {
        b_wins
    } else {
        w_wins
    };
    let ending = if mover_wins > 0 {
        if white {
            Some(Ending::WhiteWin(fast_w + 1))
        } else {
            Some(Ending::BlackWin(fast_b + 1))
        }
    } else if draws > 0 && draws + other_wins == k {
        Some(Ending::Draw)
    } else if other_wins == k {
        if white {
            Some(Ending::BlackWin(slow_b + 1))
        } else {
            Some(Ending::WhiteWin(slow_w + 1))
        }
    } else {
        None
    };
    tree.nodes[node].visits = visits;
    tree.nodes[node].depth = dmax + 1;
    tree.nodes[node].eval = best;
    tree.nodes[node].ending = ending;
    proof {
        lemma_stats_only(before, *tree, n);
        assert forall|i: int| 0 <= i < k implies {
            let x = #[trigger] tree.kid(n, i);
            let y = before.kid(n, i);
            x.visits == y.visits && x.depth == y.depth && x.eval == y.eval && x.ending == y.ending
        } by {
            let c = before.at(n).children@[i];
            assert(c > n);
            assert(tree.at(c as int) == before.at(c as int));
        }
        lemma_folds_frame(*tree, before, n, k as nat);
        assert(tree.ending_rule(n) == ending);
    }
}

/// Recomputes the statistics of a node and of each node above it, from
/// the node upwards.
#[verifier::rlimit(40)]
fn settle_upwards(tree: &mut Tree, leaf: usize)
    requires
        old(tree).shaped(),
        leaf < old(tree).size(),
        old(tree).at(leaf as int).children@.len() == 0 ==> old(tree).at(leaf as int).depth >= 1,
        forall|n: int|
            0 <= n < old(tree).size() && !old(tree).on_path(leaf as int, n) ==> #[trigger] old(
                tree,
            ).settled(old(tree).tables, n),
    ensures
        final(tree).shaped(),
        final(tree).all_settled(),
        final(tree).same_shape(*old(tree)),
        final(tree).same_counters(*old(tree)),
        final(tree).cursors == old(tree).cursors,
        forall|n: int|
            0 <= n < old(tree).size() && !old(tree).on_path(leaf as int, n) ==> same_stats(
                #[trigger] final(tree).at(n),
                old(tree).at(n),
            ),
        old(tree).at(leaf as int).children@.len() == 0 ==> final(tree).at(leaf as int).depth
            == old(tree).at(leaf as int).depth,
{
    let mut node: usize = leaf;
    loop
        invariant_except_break
            node < tree.size(),
            tree.at(node as int).children@.len() == 0 ==> tree.at(node as int).depth >= 1,
            forall|n: int|
                0 <= n < tree.size() && !tree.on_path(node as int, n) ==> #[trigger] tree.settled(
                    tree.tables,
                    n,
                ),
        invariant
            tree.shaped(),
            tree.same_shape(*old(tree)),
            tree.same_counters(*old(tree)),
            tree.cursors == old(tree).cursors,
            old(tree).on_path(leaf as int, node as int),
            leaf < tree.size(),
            old(tree).at(leaf as int).children@.len() == 0 ==> tree.at(leaf as int).depth == old(
                tree,
            ).at(leaf as int).depth,
            forall|n: int|
                0 <= n < old(tree).size() && !old(tree).on_path(leaf as int, n) ==> same_stats(
                    #[trigger] tree.at(n),
                    old(tree).at(n),
                ),
        ensures
            tree.all_settled(),
        decreases node,
    {
        let ghost before = *tree;
        recompute(tree, node);
        proof {
            assert forall|n: int|
                0 <= n < old(tree).size() && !old(tree).on_path(leaf as int, n) implies same_stats(
                #[trigger] tree.at(n),
                old(tree).at(n),
            ) by {
                assert(same_stats(before.at(n), old(tree).at(n)));
                assert(n != node);
                assert(tree.at(n).visits == before.at(n).visits);
            }
        }
        let up = tree.nodes[node].parent;
        proof {
            assert(tree.node_wf(node as int));
            assert forall|n: int|
                0 <= n < tree.size() && (n == node || !before.on_path(
                    node as int,
                    n,
                )) implies #[trigger] tree.settled(tree.tables, n) by {
                if n != node {
                    assert(before.settled(before.tables, n));
                    assert(before.on_path(node as int, n) == (n == node || (before.at(
                        node as int,
                    ).parent matches Some(p) && p < node && before.on_path(p as int, n))));
                    if before.at(node as int).parent == Some(n as usize) {
                        assert(before.node_wf(node as int));
                        assert(before.on_path(n, n));
                        assert(before.on_path(node as int, n));
                    }
                    lemma_settled_frame(*tree, before, tree.tables, n, node as int);
                }
            }
        }
        match up {
            Some(p) => {
                proof {
                    assert forall|n: int|
                        0 <= n < tree.size() && !tree.on_path(p as int, n) implies #[trigger] tree.settled(
                        tree.tables,
                        n,
                    ) by {
                        lemma_same_route(*tree, before, p as int, n);
                        assert(before.on_path(node as int, n) == (n == node || (before.at(
                            node as int,
                        ).parent matches Some(q) && q < node && before.on_path(q as int, n))));
                    }
                    let kids = tree.at(p as int).children@;
                    assert(kids.contains(node));
                    lemma_path_up(*old(tree), *tree, leaf as int, node as int);
                }
                node = p;
            },
            None => {
                proof {
                    assert forall|n: int| 0 <= n < tree.size() implies #[trigger] tree.settled(
                        tree.tables,
                        n,
                    ) by {
                        assert(before.on_path(node as int, n) == (n == node));
                    }
                }
                break ;
            },
        }
    }
}

/// The parent of a node on a path is on the path.
proof fn lemma_path_up(a: Tree, b: Tree, leaf: int, node: int)
    requires
        a.same_shape(b) || b.same_shape(a),
        a.on_path(leaf, node),
        0 < node < a.size(),
        b.at(node).parent matches Some(p) && p < node,
    ensures
        a.on_path(leaf, b.at(node).parent.unwrap() as int),
    decreases leaf,
{
    if leaf != node {
        let q = a.at(leaf).parent.unwrap();
        lemma_path_up(a, b, q as int, node);
    } else {
        let p = a.at(node).parent.unwrap();
        assert(a.on_path(p as int, p as int));
    }
}

/// A settled node that was expanded has height 1 or more, and without
/// children the statistics of a dead end.
proof fn lemma_settled_leaf(t: Tree, n: int)
    requires
        t.shaped(),
        0 <= n < t.size(),
        t.settled(t.tables, n),
        t.at(n).children@.len() == 0 ==> t.at(n).depth >= 1,
    ensures
        t.at(n).depth >= 1,
        t.at(n).children@.len() == 0 ==> at_dead_end(t.at(n), t.tables),
{
    assert(t.node_wf(n));
    lemma_folds_bounds(t, n, t.at(n).children@.len());
}

/// Carries the statistics of a freshly expanded node up the tree: the
/// node and each node above it get the statistics that their children
/// give them, and a descent that stood at the node ends.
#[verifier::rlimit(40)]
pub fn propagate_values(tree: &mut Tree, leaf: usize)
    requires
        old(tree).shaped(),
        old(tree).counted(),
        old(tree).cursors@.contains(leaf),
        leaf < old(tree).size(),
        old(tree).at(leaf as int).children@.len() == 0 ==> old(tree).at(leaf as int).depth >= 1,
        forall|n: int|
            0 <= n < old(tree).size() && !old(tree).on_path(leaf as int, n) ==> #[trigger] old(
                tree,
            ).settled(old(tree).tables, n),
    ensures
        final(tree).wf(),
        final(tree).same_shape(*old(tree)),
        exists|k: int|
            #[trigger] old(tree).first_at(leaf, k) && final(tree).cursors@ == old(
                tree,
            ).cursors@.remove(k),
        forall|n: int|
            0 <= n < old(tree).size() && !old(tree).on_path(leaf as int, n) ==> same_stats(
                #[trigger] final(tree).at(n),
                old(tree).at(n),
            ),
        old(tree).at(leaf as int).children@.len() == 0 ==> at_dead_end(
            final(tree).at(leaf as int),
            final(tree).tables,
        ),
        final(tree).at(leaf as int).depth >= 1,
{
    settle_upwards(tree, leaf);
    let ghost settled = *tree;
    proof {
        assert(settled.settled(settled.tables, leaf as int));
        assert(settled.at(leaf as int).children@ == old(tree).at(leaf as int).children@);
        lemma_settled_leaf(settled, leaf as int);
        lemma_counted_same(*old(tree), settled);
    }
    let k = index_of(tree, leaf);
    finish(tree, k);
    proof {
        assert forall|n: int| 0 <= n < tree.size() implies #[trigger] tree.settled(
            tree.tables,
            n,
        ) by {
            assert(settled.settled(settled.tables, n));
            lemma_settled_same(*tree, settled, n);
        }
        assert forall|i: int| 0 <= i < tree.size() implies {
            let a = #[trigger] tree.at(i);
            let b = old(tree).at(i);
            a.board == b.board && a.children@ == b.children@ && a.parent == b.parent
                && a.last_move == b.last_move
        } by {
            assert(tree.at(i).board == settled.at(i).board);
            assert(settled.at(i).board == old(tree).at(i).board);
        }
        assert forall|n: int|
            0 <= n < old(tree).size() && !old(tree).on_path(leaf as int, n) implies same_stats(
            #[trigger] tree.at(n),
            old(tree).at(n),
        ) by {
            assert(same_stats(tree.at(n), settled.at(n)));
            assert(same_stats(settled.at(n), old(tree).at(n)));
        }
        assert(same_stats(tree.at(leaf as int), settled.at(leaf as int)));
        assert(tree.at(leaf as int).board == settled.at(leaf as int).board);
        assert(old(tree).first_at(leaf, k as int));
    }
}

/// Trees with the same shape, counters and descents agree on whether the
/// counters count the descents.
proof fn lemma_counted_same(a: Tree, b: Tree)
    requires
        a.counted(),
        b.same_shape(a),
        b.same_counters(a),
        b.cursors == a.cursors,
    ensures
        b.counted(),
{
    assert forall|k: int| 0 <= k < b.cursors@.len() implies (#[trigger] b.cursors@[k]) < b.size()
        && b.on_route(b.cursors@[k] as int, b.root as int) by {
        lemma_same_route(b, a, b.cursors@[k] as int, b.root as int);
    }
    assert forall|i: int| 0 <= i < b.size() implies (#[trigger] b.at(i)).proc_threads == b.passing(
        b.cursors@,
        i,
    ) by {
        assert(a.at(i).proc_threads == a.passing(a.cursors@, i));
        lemma_passing_same(b, a, b.cursors@, i);
    }
}

/// What a descent is to do next.
#[derive(Clone, Copy, PartialEq, Eq, Debug, Structural)]
pub enum Step {
    /// The root is decided: there is nothing to search.
    GameOver,
    /// The descent has been given up, and another may start at the root:
    /// every child of the node reached is decided, or another descent
    /// stands at the node to expand it.
    Solved,
    /// The descent stands at a node with undecided children, and waits
    /// for their scores.
    Choose(usize),
    /// The descent stands at a node without children, which is to be
    /// expanded.
    Expand(usize),
}

impl Tree {
    /// Whether the node `n` has an undecided child.
    pub open spec fn open_kids(&self, n: int) -> bool {
        exists|j: int| 0 <= j < self.at(n).children@.len() && (#[trigger] self.kid(n, j)).ending is None
    }

    /// Whether the scores pick the `j`-th child of `n`: it is undecided,
    /// no undecided child has a greater score, and those before it have a
    /// smaller one.
    pub open spec fn picks(&self, n: int, scores: Seq<u64>, j: int) -> bool {
        &&& 0 <= j < self.at(n).children@.len()
        &&& self.kid(n, j).ending is None
        &&& forall|i: int|
            0 <= i < self.at(n).children@.len() && (#[trigger] self.kid(n, i)).ending is None
                ==> scores[i] <= scores[j] && (i < j ==> scores[i] < scores[j])
    }

    /// Whether `k` is the index of the first descent that stands at
    /// `node`.
    pub open spec fn first_at(&self, node: usize, k: int) -> bool {
        &&& 0 <= k < self.cursors@.len()
        &&& self.cursors@[k] == node
        &&& forall|j: int| 0 <= j < k ==> self.cursors@[j] != node
    }

    /// Whether another of the descents `cs` stands where the descent `k`
    /// stands.
    pub open spec fn crowded(cs: Seq<usize>, k: int) -> bool {
        exists|j: int| 0 <= j < cs.len() && j != k && #[trigger] cs[j] == cs[k]
    }

    /// What the descent `k` of the descents `cs` does on arriving at its
    /// node: it expands a node without children unless another descent
    /// stands there to do so, waits for scores at a node with undecided
    /// children, and is given up otherwise.
    pub open spec fn arrival(&self, cs: Seq<usize>, k: int) -> Step {
        let n = cs[k] as int;
        if self.at(n).children@.len() == 0 {
            if Tree::crowded(cs, k) {
                Step::Solved
            } else {
                Step::Expand(n as usize)
            }
        } else if self.open_kids(n) {
            Step::Choose(n as usize)
        } else {
            Step::Solved
        }
    }

    /// Whether the tree stands as the step says: with a descent at a node
    /// that has undecided children to choose from, or none to expand.
    pub open spec fn awaits(&self, step: Step) -> bool {
        match step {
            Step::GameOver => true,
            Step::Solved => true,
            Step::Choose(n) => self.cursors@.contains(n) && n < self.size() && self.open_kids(
                n as int,
            ),
            Step::Expand(n) => self.cursors@.contains(n) && n < self.size() && self.at(
                n as int,
            ).children@.len() == 0,
        }
    }

    /// Whether the node has an undecided child.
    fn has_open_kid(&self, node: usize) -> (r: bool)
        requires
            self.shaped(),
            node < self.size(),
        ensures
            r == self.open_kids(node as int),
    {
        let k = self.nodes[node].children.len();
        let mut j: usize = 0;
        assert(self.node_wf(node as int));
        while j < k
            invariant
                j <= k,
                self.shaped(),
                node < self.size(),
                k == self.at(node as int).children@.len(),
                forall|i: int| 0 <= i < j ==> (#[trigger] self.kid(node as int, i)).ending is Some,
            decreases k - j,
        {
            assert(self.node_wf(node as int));
            let c = self.nodes[node].children[j];
            if self.nodes[c].ending.is_none() {
                assert(self.kid(node as int, j as int).ending is None);
                return true;
            }
            j = j + 1;
        }
        false
    }

    /// Whether another descent stands where the descent `k` stands.
    fn is_crowded(&self, k: usize) -> (r: bool)
        requires
            k < self.cursors@.len(),
        ensures
            r == Tree::crowded(self.cursors@, k as int),
    {
        let n = self.cursors.len();
        let node = self.cursors[k];
        let mut j: usize = 0;
        while j < n
            invariant
                j <= n,
                n == self.cursors@.len(),
                k < n,
                node == self.cursors@[k as int],
                forall|i: int| 0 <= i < j && i != k ==> self.cursors@[i] != node,
            decreases n - j,
        {
            if j != k && self.cursors[j] == node {
                assert(self.cursors@[j as int] == self.cursors@[k as int]);
                return true;
            }
            j = j + 1;
        }
        false
    }

    /// The step of the descent `k`, which has reached its node.
    fn arrive(&mut self, k: usize) -> (r: Step)
        requires
            old(self).wf(),
            k < old(self).cursors@.len(),
        ensures
            r == old(self).arrival(old(self).cursors@, k as int),
            final(self).wf(),
            final(self).same_shape(*old(self)),
            final(self).same_stats_all(*old(self)),
            final(self).cursors@ == (if r == Step::Solved {
                old(self).cursors@.remove(k as int)
            } else {
                old(self).cursors@
            }),
            final(self).awaits(r),
    {
        let ghost before = *self;
        let node: usize = self.cursors[k];
        let stay = if self.nodes[node].children.len() == 0 {
            !self.is_crowded(k)
        } else {
            self.has_open_kid(node)
        };
        if stay {
            proof {
                assert forall|i: int| 0 <= i < self.size() implies {
                    let a = #[trigger] self.at(i);
                    a.children@ == a.children@
                } by {}
            }
            if self.nodes[node].children.len() == 0 {
                Step::Expand(node)
            } else {
                Step::Choose(node)
            }
        } else {
            finish(self, k);
            proof {
                assert forall|n: int| 0 <= n < self.size() implies #[trigger] self.settled(
                    self.tables,
                    n,
                ) by {
                    assert(before.settled(before.tables, n));
                    lemma_settled_same(*self, before, n);
                }
            }
            Step::Solved
        }
    }

    /// Starts a descent at the root, unless the root is decided.
    #[verifier::rlimit(40)]
    pub fn start_descent(&mut self) -> (r: Step)
        requires
            old(self).wf(),
            old(self).cursors@.len() < u32::MAX,
        ensures
            final(self).wf(),
            final(self).same_shape(*old(self)),
            final(self).same_stats_all(*old(self)),
            r == (if old(self).at(old(self).root as int).ending is Some {
                Step::GameOver
            } else {
                old(self).arrival(
                    old(self).cursors@.push(old(self).root),
                    old(self).cursors@.len() as int,
                )
            }),
            final(self).cursors@ == (if r == Step::GameOver || r == Step::Solved {
                old(self).cursors@
            } else {
                old(self).cursors@.push(old(self).root)
            }),
            final(self).awaits(r),
    {
        let root = self.root;
        if self.nodes[root].ending.is_some() {
            proof {
                assert forall|i: int| 0 <= i < self.size() implies {
                    let a = #[trigger] self.at(i);
                    a.children@ == a.children@
                } by {}
            }
            return Step::GameOver;
        }
        let ghost before = *self;
        let k: usize = self.cursors.len();
        proof {
            lemma_passing_bounds(before, before.cursors@, root as int);
        }
        self.cursors.push(root);
        let ghost pushed = *self;
        self.nodes[root].proc_threads = self.nodes[root].proc_threads + 1;
        proof {
            lemma_descents_only(before, pushed);
            lemma_counters_only(pushed, *self, root as int);
            assert forall|j: int| 0 <= j < self.cursors@.len() implies (#[trigger] self.cursors@[j])
                < self.size() && self.on_route(self.cursors@[j] as int, self.root as int) by {
                if j < k {
                    assert(self.cursors@[j] == before.cursors@[j]);
                    lemma_same_route(*self, before, self.cursors@[j] as int, self.root as int);
                }
            }
            assert forall|i: int| 0 <= i < self.size() implies (#[trigger] self.at(
                i,
            )).proc_threads == self.passing(self.cursors@, i) by {
                lemma_passing_push(before, before.cursors@, root, i);
                lemma_passing_same(*self, before, self.cursors@, i);
                assert(before.at(i).proc_threads == before.passing(before.cursors@, i));
                if i != root {
                    assert(self.at(i) == pushed.at(i));
                    assert(pushed.at(i) == before.at(i));
                    if before.on_route(root as int, i) {
                    }
                }
            }
            assert forall|n: int| 0 <= n < self.size() implies #[trigger] self.settled(
                self.tables,
                n,
            ) by {
                assert(before.settled(before.tables, n));
                lemma_settled_same(*self, before, n);
            }
        }
        let ghost entered = *self;
        let r = self.arrive(k);
        proof {
            lemma_arrival_same(before, entered, entered.cursors@, k as int);
            assert(before.cursors@.push(root).remove(k as int) =~= before.cursors@);
            assert forall|i: int| 0 <= i < self.size() implies {
                let a = #[trigger] self.at(i);
                let b = before.at(i);
                a.board == b.board && a.children@ == b.children@ && a.parent == b.parent
                    && a.last_move == b.last_move && same_stats(a, b)
            } by {
                assert(same_stats(self.at(i), entered.at(i)));
                assert(entered.at(i).board == before.at(i).board);
            }
        }
        r
    }

    /// Goes on with a descent that stands at `node`, to the child that
    /// the scores pick among the undecided children of the node. `scores`
    /// holds a score for each child, in the order of the children; the
    /// scores of decided children are not looked at. Where no child is
    /// undecided any more, the descent is given up.
    #[verifier::rlimit(40)]
    pub fn descend(&mut self, node: usize, scores: &Vec<u64>) -> (r: Step)
        requires
            old(self).wf(),
            old(self).cursors@.contains(node),
            scores@.len() == old(self).at(node as int).children@.len(),
        ensures
            final(self).wf(),
            final(self).same_shape(*old(self)),
            final(self).same_stats_all(*old(self)),
            final(self).awaits(r),
            !old(self).open_kids(node as int) ==> r == Step::Solved && exists|k: int|
                #[trigger] old(self).first_at(node, k) && final(self).cursors@ == old(
                    self,
                ).cursors@.remove(k),
            old(self).open_kids(node as int) ==> exists|k: int, j: int|
                {
                    let moved = old(self).cursors@.update(
                        k,
                        old(self).at(node as int).children@[j],
                    );
                    &&& #[trigger] old(self).first_at(node, k)
                    &&& #[trigger] old(self).picks(node as int, scores@, j)
                    &&& r == old(self).arrival(moved, k)
                    &&& final(self).cursors@ == (if r == Step::Solved {
                        moved.remove(k)
                    } else {
                        moved
                    })
                },
    {
        let k = index_of(self, node);
        let ghost n = node as int;
        let ghost before = *self;
        assert(before.node_wf(n));
        let kids = self.nodes[node].children.len();
        let mut pick: usize = 0;
        let mut found = false;
        let mut j: usize = 0;
        while j < kids
            invariant
                j <= kids,
                *self == before,
                before.shaped(),
                n == node,
                0 <= n < before.size(),
                kids == before.at(n).children@.len(),
                scores@.len() == kids,
                !found ==> forall|i: int|
                    0 <= i < j ==> (#[trigger] before.kid(n, i)).ending is Some,
                found ==> pick < j && before.kid(n, pick as int).ending is None && forall|i: int|
                    0 <= i < j && (#[trigger] before.kid(n, i)).ending is None ==> scores@[i]
                        <= scores@[pick as int] && (i < pick ==> scores@[i] < scores@[pick as int]),
            decreases kids - j,
        {
            assert(before.node_wf(n));
            let c = self.nodes[node].children[j];
            if self.nodes[c].ending.is_none() {
                if !found || scores[j] > scores[pick] {
                    pick = j;
                    found = true;
                }
            }
            j = j + 1;
        }
        if !found {
            finish(self, k);
            proof {
                assert forall|m: int| 0 <= m < self.size() implies #[trigger] self.settled(
                    self.tables,
                    m,
                ) by {
                    assert(before.settled(before.tables, m));
                    lemma_settled_same(*self, before, m);
                }
                assert(before.first_at(node, k as int));
            }
            return Step::Solved;
        }
        proof {
            assert(before.kid(n, pick as int).ending is None);
            assert(before.picks(n, scores@, pick as int));
        }
        let c: usize = self.nodes[node].children[pick];
        proof {
            assert(before.at(c as int).parent == Some(node));
            lemma_route_below(before, n, before.root as int);
            assert(!before.on_route(n, c as int)) by {
                if before.on_route(n, c as int) {
                    lemma_route_below(before, n, c as int);
                }
            }
            lemma_passing_remove(before, before.cursors@, k as int, c as int);
            lemma_passing_bounds(before, before.cursors@.remove(k as int), c as int);
        }
        self.cursors[k] = c;
        let ghost moved = *self;
        self.nodes[c].proc_threads = self.nodes[c].proc_threads + 1;
        proof {
            lemma_descents_only(before, moved);
            lemma_counters_only(moved, *self, c as int);
            assert(self.cursors@ == before.cursors@.update(k as int, c));
            assert forall|x: int| 0 <= x < self.cursors@.len() implies (#[trigger] self.cursors@[x])
                < self.size() && self.on_route(self.cursors@[x] as int, self.root as int) by {
                if x != k {
                    assert(self.cursors@[x] == before.cursors@[x]);
                }
                lemma_same_route(*self, before, self.cursors@[x] as int, self.root as int);
            }
            assert forall|i: int| 0 <= i < self.size() implies (#[trigger] self.at(
                i,
            )).proc_threads == self.passing(self.cursors@, i) by {
                lemma_passing_update(before, before.cursors@, k as int, c, i);
                lemma_passing_same(*self, before, self.cursors@, i);
                assert(before.at(i).proc_threads == before.passing(before.cursors@, i));
                if i != c {
                    assert(self.at(i) == moved.at(i));
                    assert(moved.at(i) == before.at(i));
                }
            }
            assert forall|m: int| 0 <= m < self.size() implies #[trigger] self.settled(
                self.tables,
                m,
            ) by {
                assert(before.settled(before.tables, m));
                lemma_settled_same(*self, before, m);
            }
        }
        let ghost entered = *self;
        let r = self.arrive(k);
        proof {
            lemma_arrival_same(before, entered, entered.cursors@, k as int);
            assert(before.first_at(node, k as int));
            assert forall|i: int| 0 <= i < self.size() implies {
                let a = #[trigger] self.at(i);
                let b = before.at(i);
                a.board == b.board && a.children@ == b.children@ && a.parent == b.parent
                    && a.last_move == b.last_move && same_stats(a, b)
            } by {
                assert(same_stats(self.at(i), entered.at(i)));
                assert(entered.at(i).board == before.at(i).board);
            }
        }
        r
    }
}

/// What a descent does on arrival depends on the children and their
/// endings alone.
proof fn lemma_arrival_same(a: Tree, b: Tree, cs: Seq<usize>, k: int)
    requires
        a.shaped(),
        b.same_shape(a),
        b.same_stats_all(a),
        0 <= k < cs.len(),
        cs[k] < a.size(),
    ensures
        a.arrival(cs, k) == b.arrival(cs, k),
        a.open_kids(cs[k] as int) == b.open_kids(cs[k] as int),
{
    let n = cs[k] as int;
    assert(a.node_wf(n));
    assert(b.at(n).children@ == a.at(n).children@);
    if a.open_kids(n) {
        let j = choose|j: int|
            0 <= j < a.at(n).children@.len() && (#[trigger] a.kid(n, j)).ending is None;
        let c = a.at(n).children@[j];
        assert(b.at(c as int).ending == a.at(c as int).ending);
        assert(b.kid(n, j).ending is None);
    }
    if b.open_kids(n) {
        let j = choose|j: int|
            0 <= j < b.at(n).children@.len() && (#[trigger] b.kid(n, j)).ending is None;
        let c = a.at(n).children@[j];
        assert(b.at(c as int).ending == a.at(c as int).ending);
        assert(a.kid(n, j).ending is None);
    }
}

/// Whether `after` is the tree `before` with the node `leaf` expanded into
/// the children `cands` and the statistics carried up: the children are
/// new nodes at the end of the arena, in the order of `cands`, each as it
/// was spawned from its candidate; the leaf names them; every older node
/// keeps its position, parent and move, but for the leaf its children, and
/// unless it lies on the way up from the leaf its statistics; a leaf that
/// got no children has the statistics of a dead end.
pub open spec fn grown_from(before: Tree, after: Tree, leaf: usize, cands: Seq<Candidate>) -> bool {
    let base = before.size();
    &&& after.root == before.root
    &&& after.tables == before.tables
    &&& after.size() == base + cands.len()
    &&& forall|i: int|
        0 <= i < base ==> {
            let a = #[trigger] after.at(i);
            let b = before.at(i);
            &&& a.board == b.board
            &&& a.parent == b.parent
            &&& a.last_move == b.last_move
            &&& (i != leaf ==> a.children@ == b.children@)
            &&& (!before.on_path(leaf as int, i) ==> same_stats(a, b))
        }
    &&& after.at(leaf as int).children@ == Seq::new(cands.len(), |j: int| (base + j) as usize)
    &&& after.at(leaf as int).depth >= 1
    &&& (cands.len() == 0 ==> at_dead_end(after.at(leaf as int), after.tables))
    &&& forall|j: int|
        0 <= j < cands.len() ==> (#[trigger] after.at(base + j)).spawned(
            leaf,
            cands[j].board,
            notation(cands[j].mv),
        )
}

/// Paths are the same in a tree and in the tree grown from it.
proof fn lemma_path_grown(a: Tree, b: Tree, n: int, i: int)
    requires
        a.size() <= b.size(),
        0 <= n < a.size(),
        forall|k: int| 0 <= k < a.size() ==> (#[trigger] b.at(k)).parent == a.at(k).parent,
    ensures
        a.on_path(n, i) == b.on_path(n, i),
    decreases n,
{
    if i != n && 0 < n {
        assert(b.at(n).parent == a.at(n).parent);
        match a.at(n).parent {
            Some(p) => {
                if p < n {
                    lemma_path_grown(a, b, p as int, i);
                }
            },
            None => {},
        }
    }
}

/// Routes are the same in a tree and in the tree grown from it.
proof fn lemma_route_grown(a: Tree, b: Tree, n: int, i: int)
    requires
        a.size() <= b.size(),
        a.root == b.root,
        0 <= n < a.size(),
        forall|k: int| 0 <= k < a.size() ==> (#[trigger] b.at(k)).parent == a.at(k).parent,
    ensures
        a.on_route(n, i) == b.on_route(n, i),
    decreases n,
{
    if i != n && 0 < n && n != a.root {
        assert(b.at(n).parent == a.at(n).parent);
        match a.at(n).parent {
            Some(p) => {
                if p < n {
                    lemma_route_grown(a, b, p as int, i);
                }
            },
            None => {},
        }
    }
}

/// The descents pass through the same nodes in a tree and in the tree
/// grown from it, and through none of the new nodes.
proof fn lemma_passing_grown(a: Tree, b: Tree, cs: Seq<usize>, i: int)
    requires
        a.size() <= b.size(),
        a.root == b.root,
        forall|k: int| 0 <= k < a.size() ==> (#[trigger] b.at(k)).parent == a.at(k).parent,
        forall|k: int| 0 <= k < cs.len() ==> (#[trigger] cs[k]) < a.size(),
    ensures
        b.passing(cs, i) == (if i < a.size() {
            a.passing(cs, i)
        } else {
            0
        }),
    decreases cs.len(),
{
    if cs.len() > 0 {
        let rest = cs.drop_last();
        assert forall|k: int| 0 <= k < rest.len() implies (#[trigger] rest[k]) < a.size() by {
            assert(rest[k] == cs[k]);
        }
        lemma_passing_grown(a, b, rest, i);
        let c = cs.last();
        assert(c == cs[cs.len() - 1]);
        lemma_route_grown(a, b, c as int, i);
        if i >= a.size() && b.on_route(c as int, i) {
            lemma_route_below(b, c as int, i);
        }
    }
}

/// After a node was expanded, only the nodes on the way up from it may
/// disagree with their children.
#[verifier::rlimit(40)]
proof fn lemma_bloomed_settled(quieted: Tree, mid: Tree, leaf: usize, cands: Seq<Candidate>)
    requires
        quieted.shaped(),
        quieted.all_settled(),
        leaf < quieted.size(),
        bloomed(quieted, mid, leaf, cands),
    ensures
        forall|n: int|
            0 <= n < mid.size() && !mid.on_path(leaf as int, n) ==> #[trigger] mid.settled(
                mid.tables,
                n,
            ),
        forall|x: int| 0 <= x < quieted.size() ==> (#[trigger] mid.at(x)).parent == quieted.at(
            x,
        ).parent,
{
    let base = quieted.size();
    assert forall|n: int| 0 <= n < mid.size() && !mid.on_path(leaf as int, n) implies #[trigger] mid.settled(
    mid.tables, n) by {
        if n >= base {
            assert(mid.at(base + (n - base)).spawned(
                leaf,
                cands[n - base].board,
                notation(cands[n - base].mv),
            ));
        } else {
            assert(mid.on_path(leaf as int, leaf as int));
            assert(mid.at(n) == quieted.at(n));
            assert(quieted.settled(quieted.tables, n));
            assert(quieted.node_wf(n));
            let kn = quieted.at(n).children@.len();
            assert forall|j: int| 0 <= j < kn implies {
                let x = #[trigger] mid.kid(n, j);
                let y = quieted.kid(n, j);
                x.visits == y.visits && x.depth == y.depth && x.eval == y.eval && x.ending
                    == y.ending
            } by {
                let c = quieted.at(n).children@[j];
                assert(quieted.at(c as int).parent == Some(n as usize));
                if c == leaf {
                    assert(mid.at(leaf as int).parent == Some(n as usize));
                    assert(mid.on_path(n, n));
                    assert(mid.on_path(leaf as int, n));
                }
                assert(mid.at(c as int) == quieted.at(c as int));
            }
            lemma_folds_frame(mid, quieted, n, kn);
        }
    }
    assert forall|x: int| 0 <= x < quieted.size() implies (#[trigger] mid.at(x)).parent
        == quieted.at(x).parent by {
        if x != leaf {
            assert(mid.at(x) == quieted.at(x));
        }
    }
}

/// After a node was expanded and the statistics were carried up, the
/// counters still count the descents.
#[verifier::rlimit(40)]
proof fn lemma_grown_counted(
    quieted: Tree,
    mid: Tree,
    fin: Tree,
    leaf: usize,
    cands: Seq<Candidate>,
)
    requires
        quieted.shaped(),
        quieted.counted(),
        leaf < quieted.size(),
        bloomed(quieted, mid, leaf, cands),
        fin.same_shape(mid),
        fin.same_counters(mid),
        fin.cursors == mid.cursors,
        forall|x: int| 0 <= x < quieted.size() ==> (#[trigger] mid.at(x)).parent == quieted.at(
            x,
        ).parent,
    ensures
        fin.counted(),
{
    let base = quieted.size();
    assert forall|x: int| 0 <= x < fin.cursors@.len() implies (#[trigger] fin.cursors@[x])
        < fin.size() && fin.on_route(fin.cursors@[x] as int, fin.root as int) by {
        let c = fin.cursors@[x];
        assert(c == quieted.cursors@[x]);
        lemma_route_grown(quieted, mid, c as int, mid.root as int);
        lemma_same_route(fin, mid, c as int, fin.root as int);
    }
    assert forall|i: int| 0 <= i < fin.size() implies (#[trigger] fin.at(i)).proc_threads
        == fin.passing(fin.cursors@, i) by {
        assert(fin.at(i).proc_threads == mid.at(i).proc_threads);
        lemma_passing_same(fin, mid, fin.cursors@, i);
        lemma_passing_grown(quieted, mid, quieted.cursors@, i);
        if i >= base {
            assert(mid.at(base + (i - base)).spawned(
                leaf,
                cands[i - base].board,
                notation(cands[i - base].mv),
            ));
        } else if i != leaf {
            assert(mid.at(i) == quieted.at(i));
            assert(quieted.at(i).proc_threads == quieted.passing(quieted.cursors@, i));
        } else {
            assert(quieted.at(i).proc_threads == quieted.passing(quieted.cursors@, i));
        }
    }
}

/// After a node was expanded and the statistics were carried up, the tree
/// has grown from the tree before by the children of the node.
#[verifier::rlimit(40)]
proof fn lemma_grown_from(
    before: Tree,
    quieted: Tree,
    mid: Tree,
    fin: Tree,
    leaf: usize,
    cands: Seq<Candidate>,
)
    requires
        before.shaped(),
        leaf < before.size(),
        quieted.same_shape(before),
        quieted.same_stats_all(before),
        bloomed(quieted, mid, leaf, cands),
        fin.shaped(),
        fin.same_shape(mid),
        fin.same_counters(mid),
        fin.settled(fin.tables, leaf as int),
        mid.at(leaf as int).children@.len() == 0 ==> fin.at(leaf as int).depth == mid.at(
            leaf as int,
        ).depth,
        forall|n: int|
            0 <= n < mid.size() && !mid.on_path(leaf as int, n) ==> same_stats(
                #[trigger] fin.at(n),
                mid.at(n),
            ),
        forall|x: int| 0 <= x < quieted.size() ==> (#[trigger] mid.at(x)).parent == quieted.at(
            x,
        ).parent,
    ensures
        grown_from(before, fin, leaf, cands),
{
    let base = quieted.size();
    assert(fin.at(leaf as int).depth >= 1 && (cands.len() == 0 ==> at_dead_end(
        fin.at(leaf as int),
        fin.tables,
    ))) by {
        assert(fin.at(leaf as int).children@ == mid.at(leaf as int).children@);
        assert(mid.at(leaf as int).depth == 1);
        lemma_settled_leaf(fin, leaf as int);
    }
    assert forall|i: int| 0 <= i < base implies {
        let a = #[trigger] fin.at(i);
        let b = before.at(i);
        &&& a.board == b.board
        &&& a.parent == b.parent
        &&& a.last_move == b.last_move
        &&& (i != leaf ==> a.children@ == b.children@)
        &&& (!before.on_path(leaf as int, i) ==> same_stats(a, b))
    } by {
        assert(fin.at(i).board == mid.at(i).board);
        assert(quieted.at(i).board == before.at(i).board);
        if i != leaf {
            assert(mid.at(i) == quieted.at(i));
        }
        if !before.on_path(leaf as int, i) {
            lemma_same_route(quieted, before, leaf as int, i);
            lemma_path_grown(quieted, mid, leaf as int, i);
            assert(!mid.on_path(leaf as int, i));
            assert(same_stats(fin.at(i), mid.at(i)));
            assert(same_stats(quieted.at(i), before.at(i)));
        }
    }
    assert forall|j: int| 0 <= j < cands.len() implies (#[trigger] fin.at(base + j)).spawned(
        leaf,
        cands[j].board,
        notation(cands[j].mv),
    ) by {
        assert(mid.at(base + j).spawned(leaf, cands[j].board, notation(cands[j].mv)));
        if mid.on_path(leaf as int, base + j) {
            lemma_route_below(mid, leaf as int, base + j);
        }
        assert(same_stats(fin.at(base + j), mid.at(base + j)));
        assert(fin.at(base + j).board == mid.at(base + j).board);
        assert(fin.at(base + j).proc_threads == mid.at(base + j).proc_threads);
    }
    assert(fin.at(leaf as int).children@ == mid.at(leaf as int).children@);
}

impl Tree {
    /// Expands the node `leaf` without children, at which a descent
    /// stands, and carries the statistics up the tree; the descent ends.
    /// The node gets a child for each legal move of its position. Where
    /// the tree has no room for that, the nodes stay as they are and
    /// `false` is returned.
    #[verifier::rlimit(40)]
    pub fn grow(&mut self, leaf: usize) -> (grown: bool)
        requires
            old(self).wf(),
            old(self).cursors@.contains(leaf),
            leaf < old(self).size(),
            old(self).at(leaf as int).children@.len() == 0,
        ensures
            final(self).wf(),
            exists|k: int|
                #[trigger] old(self).first_at(leaf, k) && final(self).cursors@ == old(
                    self,
                ).cursors@.remove(k),
            grown == can_bloom(old(self).size(), old(self).at(leaf as int).board, old(self).tables),
            !grown ==> final(self).same_shape(*old(self)) && final(self).same_stats_all(
                *old(self),
            ),
            grown ==> exists|cands: Seq<Candidate>|
                lists(
                    cands,
                    old(self).at(leaf as int).board,
                    old(self).tables,
                    Set::new(
                        |m: Move| pseudo_legal(old(self).at(leaf as int).board, old(self).tables, m),
                    ),
                ) && #[trigger] grown_from(*old(self), *final(self), leaf, cands),
    {
        let ghost before = *self;
        let k = index_of(self, leaf);
        finish(self, k);
        let ghost quieted = *self;
        proof {
            assert(before.first_at(leaf, k as int));
            assert forall|n: int| 0 <= n < quieted.size() implies #[trigger] quieted.settled(
                quieted.tables,
                n,
            ) by {
                assert(before.settled(before.tables, n));
                lemma_settled_same(quieted, before, n);
            }
            assert(before.node_wf(leaf as int));
        }
        let grown = bloom(self, leaf);
        if !grown {
            return false;
        }
        let ghost mid = *self;
        let ghost cands = choose|cands: Seq<Candidate>|
            lists(
                cands,
                quieted.at(leaf as int).board,
                quieted.tables,
                Set::new(|m: Move| pseudo_legal(quieted.at(leaf as int).board, quieted.tables, m)),
            ) && #[trigger] bloomed(quieted, mid, leaf, cands);
        proof {
            lemma_bloomed_settled(quieted, mid, leaf, cands);
        }
        settle_upwards(self, leaf);
        proof {
            lemma_grown_counted(quieted, mid, *self, leaf, cands);
            lemma_grown_from(before, quieted, mid, *self, leaf, cands);
            assert(quieted.at(leaf as int).board == before.at(leaf as int).board);
        }
        true
    }
}

/// An approximate size of a node in memory, in bytes.
pub const BYTES_PER_NODE: u64 = 880;

/// The longest that a game is taken to last from any position, in moves.
pub const MAX_GAME_LENGTH: u32 = 100;

impl Tree {
    /// The index, among the first `k` children of `n`, of the child to be
    /// preferred: the first to which no later child is preferred.
    pub open spec fn best_kid(&self, n: int, k: nat) -> int
        decreases k,
    {
        if k <= 1 {
            0
        } else {
            let b = self.best_kid(n, (k - 1) as nat);
            if precedes(self.kid(n, k - 1), self.kid(n, b)) {
                k - 1
            } else {
                b
            }
        }
    }

    /// The best child of a node, if it has children.
    pub open spec fn best_of(&self, n: int) -> Option<usize> {
        if self.at(n).children@.len() == 0 {
            None
        } else {
            Some(self.at(n).children@[self.best_kid(n, self.at(n).children@.len())])
        }
    }

    /// The line of play that starts at `n`: the node, then the line of its
    /// best child.
    pub open spec fn line(&self, n: int) -> Seq<usize>
        decreases self.size() - n,
    {
        match self.best_of(n) {
            Some(c) => if n < c < self.size() {
                seq![n as usize] + self.line(c as int)
            } else {
                seq![n as usize]
            },
            None => seq![n as usize],
        }
    }
}

/// The best child lies among the children.
proof fn lemma_best_kid_bound(t: Tree, n: int, k: nat)
    ensures
        0 <= t.best_kid(n, k),
        k > 0 ==> t.best_kid(n, k) < k,
    decreases k,
{
    if k > 1 {
        lemma_best_kid_bound(t, n, (k - 1) as nat);
    }
}

/// The child of `node` that is to be preferred to its siblings: the best
/// move at `node`. `None` if the node has no children.
pub fn get_bestmove(tree: &Tree, node: usize) -> (r: Option<usize>)
    requires
        tree.shaped(),
        node < tree.size(),
    ensures
        r == tree.best_of(node as int),
        r matches Some(c) ==> node < c < tree.size(),
{
    let k = tree.nodes[node].children.len();
    if k == 0 {
        return None;
    }
    assert(tree.node_wf(node as int));
    let mut best: usize = 0;
    let mut j: usize = 1;
    while j < k
        invariant
            1 <= j <= k,
            tree.shaped(),
            node < tree.size(),
            k == tree.at(node as int).children@.len(),
            best == tree.best_kid(node as int, j as nat),
            best < j,
        decreases k - j,
    {
        assert(tree.node_wf(node as int));
        let c = tree.nodes[node].children[j];
        let b = tree.nodes[node].children[best];
        if tree.nodes[c].better(&tree.nodes[b]) {
            best = j;
        }
        j = j + 1;
    }
    Some(tree.nodes[node].children[best])
}

/// The principal variation from `node`: the node itself, then its best
/// child, the best child of that, and so on to a node without children.
pub fn get_pv(tree: &Tree, node: usize) -> (pv: Vec<usize>)
    requires
        tree.shaped(),
        node < tree.size(),
    ensures
        pv@ == tree.line(node as int),
{
    let mut pv: Vec<usize> = Vec::new();
    let mut cur: usize = node;
    loop
        invariant_except_break
            pv@ + tree.line(cur as int) == tree.line(node as int),
        invariant
            tree.shaped(),
            cur < tree.size(),
        ensures
            pv@ == tree.line(node as int),
        decreases tree.size() - cur,
    {
        let ghost before = pv@;
        pv.push(cur);
        match get_bestmove(tree, cur) {
            Some(c) => {
                proof {
                    assert(before.push(cur) + tree.line(c as int) =~= before + (seq![cur]
                        + tree.line(c as int)));
                }
                cur = c;
            },
            None => {
                proof {
                    assert(before.push(cur) =~= before + seq![cur]);
                }
                break ;
            },
        }
    }
    pv
}

/// Whether the search should be given more time: the best move at the
/// root is a drawn game, or its evaluation is no greater than that of the
/// best among the other moves.
pub open spec fn extension_due(t: Tree) -> bool {
    let n = t.root as int;
    let k = t.at(n).children@.len();
    if k <= 1 {
        false
    } else {
        let top = t.best_kid(n, k);
        match t.kid(n, top).ending {
            Some(Ending::Draw) => true,
            Some(_) => false,
            None => t.kid(n, top).eval <= t.kid(n, t.runner_up(n, k, top)).eval,
        }
    }
}

impl Tree {
    /// The index, among the first `k` children of `n` without the child
    /// `skip`, of the child to be preferred.
    pub open spec fn runner_up(&self, n: int, k: nat, skip: int) -> int
        decreases k,
    {
        if k == 0 {
            0
        } else {
            let b = self.runner_up(n, (k - 1) as nat, skip);
            if k - 1 == skip {
                b
            } else if b == skip || precedes(self.kid(n, k - 1), self.kid(n, b)) {
                k - 1
            } else {
                b
            }
        }
    }
}

/// Whether the search should be given more time.
pub fn needs_extension(tree: &Tree) -> (r: bool)
    requires
        tree.shaped(),
    ensures
        r == extension_due(*tree),
{
    let root = tree.root;
    let k = tree.nodes[root].children.len();
    if k <= 1 {
        return false;
    }
    assert(tree.node_wf(root as int));
    let mut top: usize = 0;
    let mut j: usize = 1;
    while j < k
        invariant
            1 <= j <= k,
            tree.shaped(),
            root == tree.root,
            k == tree.at(root as int).children@.len(),
            top == tree.best_kid(root as int, j as nat),
            top < j,
        decreases k - j,
    {
        assert(tree.node_wf(root as int));
        let c = tree.nodes[root].children[j];
        let b = tree.nodes[root].children[top];
        if tree.nodes[c].better(&tree.nodes[b]) {
            top = j;
        }
        j = j + 1;
    }
    let best = &tree.nodes[tree.nodes[root].children[top]];
    match best.ending {
        Some(Ending::Draw) => {
            return true;
        },
        Some(_) => {
            return false;
        },
        None => {},
    }
    let mut second: usize = 0;
    let mut j: usize = 0;
    while j < k
        invariant
            j <= k,
            tree.shaped(),
            root == tree.root,
            k == tree.at(root as int).children@.len(),
            top < k,
            second == tree.runner_up(root as int, j as nat, top as int),
            second < k,
        decreases k - j,
    {
        assert(tree.node_wf(root as int));
        if j != top {
            let c = tree.nodes[root].children[j];
            let b = tree.nodes[root].children[second];
            if second == top || tree.nodes[c].better(&tree.nodes[b]) {
                second = j;
            }
        }
        j = j + 1;
    }
    best.eval <= tree.nodes[tree.nodes[root].children[second]].eval
}

/// The time, in milliseconds, that the side to move has left on its clock
/// under a time control.
pub open spec fn time_left(t: Tree, go: UciGo) -> Option<u32> {
    match go {
        UciGo::Time { wtime, btime, winc, binc, movestogo } => if t.at(
            t.root as int,
        ).board.is_w_move {
            wtime
        } else {
            btime
        },
        _ => None,
    }
}

/// The increment, in milliseconds, of the side to move under a time
/// control; 0 where none is given.
pub open spec fn increment(t: Tree, go: UciGo) -> u32 {
    match go {
        UciGo::Time { wtime, btime, winc, binc, movestogo } => {
            let inc = if t.at(t.root as int).board.is_w_move {
                winc
            } else {
                binc
            };
            match inc {
                Some(i) => i,
                None => 0,
            }
        },
        _ => 0,
    }
}

/// Whether the budget of the search is used up after `elapsed`
/// milliseconds. Under a time control `share` is the part of the time
/// left, less the overhead, that is allotted to this move: the search
/// stops once the share and the increment have passed, or the time left
/// less the overhead.
pub open spec fn budget_spent(
    t: Tree,
    go: UciGo,
    elapsed: u64,
    move_overhead: i32,
    share: u32,
) -> bool {
    let root = t.at(t.root as int);
    match go {
        UciGo::Time { wtime, btime, winc, binc, movestogo } => elapsed >= least(
            share + increment(t, go),
            time_left(t, go).unwrap() - move_overhead,
        ),
        UciGo::Depth { plies } => root.depth > plies,
        UciGo::Nodes { count } => root.visits > count,
        UciGo::Movetime { mseconds } => elapsed >= mseconds,
        UciGo::Infinite => false,
    }
}

/// Whether the move at the root is forced or settled: the root has fewer
/// than two children, or every child of the root is decided.
pub open spec fn forced(t: Tree) -> bool {
    t.at(t.root as int).children@.len() < 2 || !t.open_kids(t.root as int)
}

/// Whether the nodes visited take more memory than `mcts_hash` mebibytes.
pub open spec fn memory_spent(t: Tree, mcts_hash: i32) -> bool {
    t.at(t.root as int).visits * BYTES_PER_NODE > mcts_hash * 1_048_576
}

/// Whether the search is to stop: the move at the root is forced or
/// settled, or the memory is spent, or the budget is.
pub open spec fn search_over(
    t: Tree,
    go: UciGo,
    elapsed: u64,
    move_overhead: i32,
    mcts_hash: i32,
    share: u32,
) -> bool {
    ||| forced(t)
    ||| memory_spent(t, mcts_hash)
    ||| budget_spent(t, go, elapsed, move_overhead, share)
}

/// Whether the move at the root is forced or settled.
pub fn forced_stop(tree: &Tree) -> (r: bool)
    requires
        tree.shaped(),
    ensures
        r == forced(*tree),
{
    tree.nodes[tree.root].children.len() < 2 || !tree.has_open_kid(tree.root)
}

/// The number of moves over which the time left is spread: as many as
/// the time control names, or the expected length of the game.
pub fn moves_to_go(tree: &Tree, go: &UciGo) -> (moves: u32)
    requires
        tree.shaped(),
    ensures
        moves == match *go {
            UciGo::Time { wtime, btime, winc, binc, movestogo: Some(m) } => m,
            _ => 50u32,
        },
{
    match *go {
        UciGo::Time { wtime, btime, winc, binc, movestogo: Some(m) } => m,
        _ => {
            let eval = crate::misc::cp_to_eval(tree.nodes[tree.root].eval);
            let expected = crate::misc::eval_to_movestogo(eval);
            if expected < MAX_GAME_LENGTH {
                expected
            } else {
                MAX_GAME_LENGTH
            }
        },
    }
}

/// Whether the nodes visited take more memory than `mcts_hash` mebibytes.
pub fn out_of_memory(tree: &Tree, mcts_hash: i32) -> (r: bool)
    requires
        tree.shaped(),
        mcts_hash >= 0,
    ensures
        r == memory_spent(*tree, mcts_hash),
{
    tree.nodes[tree.root].visits as u64 * BYTES_PER_NODE > mcts_hash as u64 * 1_048_576
}

/// Whether the search is to stop after `elapsed_ms` milliseconds. The
/// memory is looked at only where the move is not forced, and the budget
/// only where the memory is not spent either: nothing is asked of the
/// overhead and the clocks before.
pub fn stop_searching(
    tree: &Tree,
    elapsed_ms: u64,
    go_parms: &UciGo,
    move_overhead: i32,
    mcts_hash: i32,
    share: u32,
) -> (stop: bool)
    requires
        tree.shaped(),
        !forced(*tree) ==> mcts_hash >= 0,
        !forced(*tree) && !memory_spent(*tree, mcts_hash) && *go_parms is Time ==> (time_left(
            *tree,
            *go_parms,
        ) matches Some(left) && 0 <= move_overhead <= left),
    ensures
        stop == search_over(*tree, *go_parms, elapsed_ms, move_overhead, mcts_hash, share),
        forced(*tree) ==> stop,
{
    let root = &tree.nodes[tree.root];
    if forced_stop(tree) {
        return true;
    }
    if out_of_memory(tree, mcts_hash) {
        return true;
    }
    match *go_parms {
        UciGo::Time { wtime, btime, winc, binc, movestogo } => {
            let (left, inc) = if root.board.is_w_move {
                (wtime, winc)
            } else {
                (btime, binc)
            };
            let inc: u32 = match inc {
                Some(i) => i,
                None => 0,
            };
            let allowed: u64 = (left.unwrap() - move_overhead as u32) as u64;
            let ration: u64 = share as u64 + inc as u64;
            let limit: u64 = if ration <= allowed {
                ration
            } else {
                allowed
            };
            elapsed_ms >= limit
        },
        UciGo::Depth { plies } => root.depth > plies,
        UciGo::Nodes { count } => root.visits > count,
        UciGo::Movetime { mseconds } => elapsed_ms >= mseconds as u64,
        UciGo::Infinite => false,
    }
}

impl Tree {
    /// Whether the node `c` is the root, a child of the root or a child
    /// of a child of the root.
    pub open spec fn near_root(&self, c: int) -> bool {
        let r = self.root as int;
        ||| c == r
        ||| self.at(r).children@.contains(c as usize)
        ||| exists|j: int|
            0 <= j < self.at(r).children@.len() && (#[trigger] self.kid(r, j)).children@.contains(
                c as usize,
            )
    }

    /// Moves the root to the node that stands for the position `board`, if
    /// the root, one of its children or one of their children does, so
    /// that the subtree below it is kept. Says whether there is such a
    /// node; the tree is unchanged if there is none.
    pub fn advance(&mut self, board: &Board) -> (found: bool)
        requires
            old(self).wf(),
            old(self).quiet(),
        ensures
            final(self).wf(),
            final(self).quiet(),
            final(self).nodes == old(self).nodes,
            final(self).tables == old(self).tables,
            found == exists|c: int|
                0 <= c < old(self).size() && old(self).near_root(c) && (#[trigger] old(self).at(
                    c,
                )).board == *board,
            found ==> old(self).near_root(final(self).root as int) && final(self).at(
                final(self).root as int,
            ).board == *board,
            !found ==> final(self).root == old(self).root,
    {
        let ghost before = *self;
        let root = self.root;
        assert(before.node_wf(root as int));
        if self.nodes[root].board == *board {
            return true;
        }
        let k = self.nodes[root].children.len();
        let mut j: usize = 0;
        while j < k
            invariant
                j <= k,
                *self == before,
                before == *old(self),
                before.quiet(),
                before.wf(),
                root == before.root,
                k == before.at(root as int).children@.len(),
                before.at(root as int).board != *board,
                forall|i: int|
                    0 <= i < j ==> (#[trigger] before.kid(root as int, i)).board != *board && forall|
                        g: int,
                    |
                        0 <= g < before.kid(root as int, i).children@.len() ==> before.at(
                            #[trigger] before.kid(root as int, i).children@[g] as int,
                        ).board != *board,
            decreases k - j,
        {
            assert(before.node_wf(root as int));
            let c: usize = self.nodes[root].children[j];
            assert(before.node_wf(c as int));
            if self.nodes[c].board == *board {
                self.root = c;
                proof {
                    lemma_root_only(before, *self);
                    assert(before.at(root as int).children@[j as int] == c);
                }
                return true;
            }
            let m = self.nodes[c].children.len();
            let mut g: usize = 0;
            while g < m
                invariant
                    g <= m,
                    *self == before,
                    before == *old(self),
                    before.quiet(),
                    before.wf(),
                    root == before.root,
                    c < before.size(),
                    j < k,
                    k == before.at(root as int).children@.len(),
                    c == before.at(root as int).children@[j as int],
                    m == before.at(c as int).children@.len(),
                    forall|i: int|
                        0 <= i < g ==> before.at(
                            #[trigger] before.at(c as int).children@[i] as int,
                        ).board != *board,
                decreases m - g,
            {
                assert(before.node_wf(c as int));
                let gc: usize = self.nodes[c].children[g];
                if self.nodes[gc].board == *board {
                    self.root = gc;
                    proof {
                        lemma_root_only(before, *self);
                        assert(before.kid(root as int, j as int).children@[g as int] == gc);
                        assert(before.near_root(gc as int));
                    }
                    return true;
                }
                g = g + 1;
            }
            j = j + 1;
        }
        proof {
            assert forall|c: int|
                0 <= c < before.size() && before.near_root(c) implies (#[trigger] before.at(
                c,
            )).board != *board by {
                let r = root as int;
                if c != r {
                    if before.at(r).children@.contains(c as usize) {
                        let i = choose|i: int|
                            0 <= i < before.at(r).children@.len() && before.at(r).children@[i]
                                == c as usize;
                        assert(before.kid(r, i).board != *board);
                    } else {
                        let i = choose|i: int|
                            0 <= i < before.at(r).children@.len() && (#[trigger] before.kid(
                                r,
                                i,
                            )).children@.contains(c as usize);
                        let kids = before.kid(r, i).children@;
                        let g = choose|g: int| 0 <= g < kids.len() && kids[g] == c as usize;
                        assert(before.at(kids[g] as int).board != *board);
                    }
                }
            }
        }
        false
    }
}

/// Moving the root of a tree at rest leaves it well formed.
proof fn lemma_root_only(a: Tree, b: Tree)
    requires
        a.wf(),
        a.quiet(),
        b.nodes == a.nodes,
        b.tables == a.tables,
        b.cursors == a.cursors,
        b.root < a.size(),
    ensures
        b.wf(),
{
    assert forall|i: int| 0 <= i < b.size() implies #[trigger] b.node_wf(i) by {
        assert(a.node_wf(i));
    }
    assert forall|i: int| 0 <= i < b.size() implies #[trigger] b.settled(b.tables, i) by {
        assert(a.settled(a.tables, i));
        let k = a.at(i).children@.len();
        assert forall|j: int| 0 <= j < k implies {
            let x = #[trigger] b.kid(i, j);
            let y = a.kid(i, j);
            x.visits == y.visits && x.depth == y.depth && x.eval == y.eval && x.ending == y.ending
        } by {}
        lemma_folds_frame(b, a, i, k);
    }
    assert forall|i: int| 0 <= i < b.size() implies (#[trigger] b.at(i)).proc_threads == b.passing(
        b.cursors@,
        i,
    ) by {
        assert(a.at(i).proc_threads == a.passing(a.cursors@, i));
    }
}

/// The greatest height and the picked evaluation among the children are
/// those of some child, and no child has a greater height, or an
/// evaluation that the side to move would rather pick.
proof fn lemma_folds_attained(t: Tree, n: int, k: nat)
    requires
        k > 0,
    ensures
        forall|j: int| 0 <= j < k ==> (#[trigger] t.kid(n, j)).depth <= t.depth_max(n, k),
        exists|j: int| 0 <= j < k && (#[trigger] t.kid(n, j)).depth == t.depth_max(n, k),
        forall|j: int|
            0 <= j < k ==> if t.at(n).board.is_w_move {
                (#[trigger] t.kid(n, j)).eval <= t.eval_best(n, k)
            } else {
                t.kid(n, j).eval >= t.eval_best(n, k)
            },
        exists|j: int| 0 <= j < k && (#[trigger] t.kid(n, j)).eval == t.eval_best(n, k),
    decreases k,
{
    if k > 1 {
        lemma_folds_attained(t, n, (k - 1) as nat);
        let d = choose|j: int|
            0 <= j < k - 1 && (#[trigger] t.kid(n, j)).depth == t.depth_max(n, (k - 1) as nat);
        let e = choose|j: int|
            0 <= j < k - 1 && (#[trigger] t.kid(n, j)).eval == t.eval_best(n, (k - 1) as nat);
        let last = t.kid(n, k - 1);
        if last.depth as int >= t.depth_max(n, (k - 1) as nat) {
            assert(t.kid(n, k - 1).depth == t.depth_max(n, k));
        } else {
            assert(t.kid(n, d).depth == t.depth_max(n, k));
        }
        if t.eval_best(n, k) == last.eval {
            assert(t.kid(n, k - 1).eval == t.eval_best(n, k));
        } else {
            assert(t.kid(n, e).eval == t.eval_best(n, k));
        }
    } else {
        assert(t.depth_max(n, 0) == 0);
        assert(t.kid(n, 0).depth == t.depth_max(n, k));
        assert(t.kid(n, 0).eval == t.eval_best(n, k));
    }
}

/// There are wins among the children exactly if some child is a win; the
/// quickest of them is the number of moves of some winning child, and no
/// winning child has fewer.
proof fn lemma_quickest_attained(t: Tree, n: int, k: nat, white: bool)
    ensures
        t.wins(n, k, white) > 0 <==> exists|j: int|
            0 <= j < k && is_win((#[trigger] t.kid(n, j)).ending, white),
        t.wins(n, k, white) > 0 ==> exists|j: int|
            0 <= j < k && is_win((#[trigger] t.kid(n, j)).ending, white) && moves_to_mate(
                t.kid(n, j).ending.unwrap(),
            ) == t.quickest(n, k, white),
        forall|j: int|
            0 <= j < k && is_win((#[trigger] t.kid(n, j)).ending, white) ==> t.quickest(
                n,
                k,
                white,
            ) <= moves_to_mate(t.kid(n, j).ending.unwrap()),
        t.wins(n, k, white) == 0 ==> t.quickest(n, k, white) == u32::MAX,
    decreases k,
{
    if k > 0 {
        lemma_quickest_attained(t, n, (k - 1) as nat, white);
        let last = t.kid(n, k - 1);
        if is_win(last.ending, white) {
            assert(is_win(t.kid(n, k - 1).ending, white));
            if t.quickest(n, k, white) == moves_to_mate(last.ending.unwrap()) {
                assert(moves_to_mate(t.kid(n, k - 1).ending.unwrap()) == t.quickest(n, k, white));
            } else {
                let w = choose|j: int|
                    0 <= j < k - 1 && is_win((#[trigger] t.kid(n, j)).ending, white)
                        && moves_to_mate(t.kid(n, j).ending.unwrap()) == t.quickest(
                        n,
                        (k - 1) as nat,
                        white,
                    );
                assert(is_win(t.kid(n, w).ending, white));
            }
        } else if t.wins(n, k, white) > 0 {
            let w = choose|j: int|
                0 <= j < k - 1 && is_win((#[trigger] t.kid(n, j)).ending, white) && moves_to_mate(
                    t.kid(n, j).ending.unwrap(),
                ) == t.quickest(n, (k - 1) as nat, white);
            assert(is_win(t.kid(n, w).ending, white));
        }
        if exists|j: int| 0 <= j < k && is_win((#[trigger] t.kid(n, j)).ending, white) {
            let w = choose|j: int| 0 <= j < k && is_win((#[trigger] t.kid(n, j)).ending, white);
            if w < k - 1 {
                assert(is_win(t.kid(n, w).ending, white));
            }
        }
    }
}

/// In a well-formed tree, a node with children has one visit more than
/// its children together, unless that passes the largest 32-bit number,
/// and is one higher than its highest child.
pub proof fn lemma_visits_and_depth(t: Tree, n: int)
    requires
        t.wf(),
        0 <= n < t.size(),
        t.at(n).children@.len() > 0,
    ensures
        1 + t.visits_sum(n, t.at(n).children@.len()) <= u32::MAX ==> t.at(n).visits == 1
            + t.visits_sum(n, t.at(n).children@.len()),
        forall|j: int|
            0 <= j < t.at(n).children@.len() ==> t.at(n).depth >= 1 + (#[trigger] t.kid(n, j)).depth,
        exists|j: int|
            0 <= j < t.at(n).children@.len() && t.at(n).depth == 1 + (#[trigger] t.kid(n, j)).depth,
{
    assert(t.settled(t.tables, n));
    lemma_folds_attained(t, n, t.at(n).children@.len());
    let k = t.at(n).children@.len();
    let d = choose|j: int| 0 <= j < k && (#[trigger] t.kid(n, j)).depth == t.depth_max(n, k);
    assert(t.at(n).depth == 1 + t.kid(n, d).depth);
}

/// In a well-formed tree, the evaluation of a node with children is the
/// greatest among its children if White is to move at it, and the least
/// if Black is.
pub proof fn lemma_eval_is_minimax(t: Tree, n: int)
    requires
        t.wf(),
        0 <= n < t.size(),
        t.at(n).children@.len() > 0,
    ensures
        exists|j: int| 0 <= j < t.at(n).children@.len() && t.at(n).eval == (#[trigger] t.kid(n, j)).eval,
        forall|j: int|
            0 <= j < t.at(n).children@.len() ==> if t.at(n).board.is_w_move {
                (#[trigger] t.kid(n, j)).eval <= t.at(n).eval
            } else {
                t.kid(n, j).eval >= t.at(n).eval
            },
{
    assert(t.settled(t.tables, n));
    lemma_folds_attained(t, n, t.at(n).children@.len());
    let k = t.at(n).children@.len();
    let e = choose|j: int| 0 <= j < k && (#[trigger] t.kid(n, j)).eval == t.eval_best(n, k);
    assert(t.at(n).eval == t.kid(n, e).eval);
}

/// In a well-formed tree, a node with a child that is a win for the side
/// to move at the node is itself such a win, one move after the quickest
/// of these children.
pub proof fn lemma_win_propagates(t: Tree, n: int)
    requires
        t.wf(),
        0 <= n < t.size(),
        exists|j: int|
            0 <= j < t.at(n).children@.len() && is_win(
                (#[trigger] t.kid(n, j)).ending,
                t.at(n).board.is_w_move,
            ),
    ensures
        is_win(t.at(n).ending, t.at(n).board.is_w_move),
        exists|j: int|
            0 <= j < t.at(n).children@.len() && is_win(
                (#[trigger] t.kid(n, j)).ending,
                t.at(n).board.is_w_move,
            ) && moves_to_mate(t.at(n).ending.unwrap()) == moves_to_mate(t.kid(n, j).ending.unwrap())
                + 1,
        forall|j: int|
            0 <= j < t.at(n).children@.len() && is_win(
                (#[trigger] t.kid(n, j)).ending,
                t.at(n).board.is_w_move,
            ) ==> moves_to_mate(t.at(n).ending.unwrap()) <= moves_to_mate(
                t.kid(n, j).ending.unwrap(),
            ) + 1,
{
    let k = t.at(n).children@.len();
    let mover = t.at(n).board.is_w_move;
    assert(t.settled(t.tables, n));
    lemma_quickest_attained(t, n, k, mover);
    lemma_folds_bounds(t, n, k);
    let w = choose|j: int|
        0 <= j < k && is_win((#[trigger] t.kid(n, j)).ending, mover) && moves_to_mate(
            t.kid(n, j).ending.unwrap(),
        ) == t.quickest(n, k, mover);
    assert(is_win(t.kid(n, w).ending, mover));
}

/// The children of a node from the best on: each child once, and none
/// that is to be preferred to the one before it.
pub fn ranked_children(tree: &Tree, node: usize) -> (out: Vec<usize>)
    requires
        tree.shaped(),
        node < tree.size(),
    ensures
        out@.to_multiset() == tree.at(node as int).children@.to_multiset(),
        forall|i: int| 0 <= i < out@.len() ==> (#[trigger] out@[i]) < tree.size(),
        forall|i: int|
            0 <= i < out@.len() - 1 ==> !precedes(
                tree.at(out@[i + 1] as int),
                tree.at(#[trigger] out@[i] as int),
            ),
{
    let k = tree.nodes[node].children.len();
    let mut out: Vec<usize> = Vec::new();
    let mut j: usize = 0;
    let ghost kids = tree.at(node as int).children@;
    proof {
        assert(kids.take(0) =~= Seq::<usize>::empty());
    }
    while j < k
        invariant
            j <= k,
            tree.shaped(),
            node < tree.size(),
            kids == tree.at(node as int).children@,
            k == kids.len(),
            out@.len() == j,
            out@.to_multiset() == kids.take(j as int).to_multiset(),
            forall|i: int| 0 <= i < out@.len() ==> (#[trigger] out@[i]) < tree.size(),
            forall|i: int|
                0 <= i < out@.len() - 1 ==> !precedes(
                    tree.at(out@[i + 1] as int),
                    tree.at(#[trigger] out@[i] as int),
                ),
        decreases k - j,
    {
        assert(tree.node_wf(node as int));
        let c: usize = tree.nodes[node].children[j];
        let mut pos: usize = 0;
        while pos < out.len() && !tree.nodes[c].better(&tree.nodes[out[pos]])
            invariant
                pos <= out@.len(),
                c < tree.size(),
                forall|i: int| 0 <= i < out@.len() ==> (#[trigger] out@[i]) < tree.size(),
                forall|i: int|
                    0 <= i < pos ==> !precedes(tree.at(c as int), tree.at(#[trigger] out@[i] as int)),
            decreases out@.len() - pos,
        {
            pos = pos + 1;
        }
        let ghost before = out@;
        out.insert(pos, c);
        proof {
            vstd::seq_lib::to_multiset_insert(before, pos as int, c);
            assert(kids.take(j + 1) =~= kids.take(j as int).push(c));
            vstd::seq_lib::to_multiset_build(kids.take(j as int), c);
            assert forall|i: int| 0 <= i < out@.len() - 1 implies !precedes(
                tree.at(out@[i + 1] as int),
                tree.at(#[trigger] out@[i] as int),
            ) by {
                if i + 1 < pos {
                    assert(out@[i] == before[i]);
                    assert(out@[i + 1] == before[i + 1]);
                } else if i + 1 == pos {
                    assert(out@[i] == before[i]);
                } else if i == pos {
                    assert(out@[i + 1] == before[pos as int]);
                    crate::order::lemma_preference_one_way(
                        tree.at(c as int),
                        tree.at(before[pos as int] as int),
                    );
                } else {
                    assert(out@[i] == before[i - 1]);
                    assert(out@[i + 1] == before[i]);
                }
            }
        }
        j = j + 1;
    }
    proof {
        assert(kids.take(k as int) =~= kids);
    }
    out
}

/// Where no child among the first `k` is undecided, each is a win for one
/// side or a draw.
proof fn lemma_all_decided(t: Tree, n: int, k: nat)
    requires
        forall|j: int| 0 <= j < k ==> (#[trigger] t.kid(n, j)).ending is Some,
    ensures
        t.wins(n, k, true) + t.wins(n, k, false) + t.draws(n, k) == k,
    decreases k,
{
    if k > 0 {
        lemma_all_decided(t, n, (k - 1) as nat);
        let last = t.kid(n, k - 1);
        assert(last.ending is Some);
    }
}

/// In a well-formed tree, an undecided node with children has an undecided
/// child: a descent that has reached it has a child to go on to.
pub proof fn lemma_undecided_has_open_kid(t: Tree, n: int)
    requires
        t.wf(),
        0 <= n < t.size(),
        t.at(n).children@.len() > 0,
        t.at(n).ending is None,
    ensures
        t.open_kids(n),
{
    let k = t.at(n).children@.len();
    assert(t.settled(t.tables, n));
    if !t.open_kids(n) {
        assert forall|j: int| 0 <= j < k implies (#[trigger] t.kid(n, j)).ending is Some by {}
        lemma_all_decided(t, n, k);
    }
}

/// The score of a node as a status line reports it: `mate` and the number
/// of moves for a decided win, with a minus sign if Black wins; `cp 0` for
/// a draw; `cp` and the evaluation in centipawns for an undecided game.
pub open spec fn score_of(ending: Option<Ending>, eval: i32) -> Seq<char> {
    match ending {
        Some(Ending::Draw) => "cp 0"@,
        Some(Ending::WhiteWin(m)) => "mate "@ + decimal(m as nat),
        Some(Ending::BlackWin(m)) => "mate -"@ + decimal(m as nat),
        None => "cp "@ + signed_decimal(eval as int),
    }
}

/// Writes the score of a node for a status line.
pub fn score_text(node: &Node) -> (r: String)
    ensures
        r@ == score_of(node.ending, node.eval),
{
    match node.ending {
        Some(Ending::Draw) => String::from_str("cp 0"),
        Some(Ending::WhiteWin(m)) => {
            let mut r = String::from_str("mate ");
            push_number(&mut r, m);
            r
        },
        Some(Ending::BlackWin(m)) => {
            let mut r = String::from_str("mate -");
            push_number(&mut r, m);
            r
        },
        None => {
            let mut r = String::from_str("cp ");
            push_integer(&mut r, node.eval);
            r
        },
    }
}

/// The moves that lead to the first `k` nodes of a line, each from its
/// parent.
pub open spec fn line_moves(t: Tree, line: Seq<usize>, k: nat) -> Seq<Seq<char>> {
    Seq::new(k, |i: int| t.at(line[i] as int).last_move.unwrap()@)
}

/// Writes the principal variation from `node`: the move that leads to the
/// node, then the best answer, the best answer to that, and so on, the
/// moves separated by spaces.
pub fn pv_text(tree: &Tree, node: usize) -> (r: String)
    requires
        tree.shaped(),
        node < tree.size(),
        tree.at(node as int).last_move is Some,
    ensures
        r@ == joined(line_moves(*tree, tree.line(node as int), tree.line(node as int).len())),
{
    let pv = get_pv(tree, node);
    let ghost line = tree.line(node as int);
    proof {
        lemma_line_moves(*tree, node as int);
    }
    let mut r = String::new();
    let mut k: usize = 0;
    while k < pv.len()
        invariant
            k <= pv@.len(),
            pv@ == line,
            forall|i: int|
                0 <= i < line.len() ==> (#[trigger] line[i]) < tree.size() && tree.at(
                    line[i] as int,
                ).last_move is Some,
            r@ == joined(line_moves(*tree, line, k as nat)),
        decreases pv@.len() - k,
    {
        let ghost before = line_moves(*tree, line, k as nat);
        let ghost after = line_moves(*tree, line, (k + 1) as nat);
        if k > 0 {
            push_glyph(&mut r, ' ');
        }
        match &tree.nodes[pv[k]].last_move {
            Some(text) => {
                r.append(text.as_str());
            },
            None => {},
        }
        proof {
            assert(after.drop_last() =~= before);
            assert(after.last() == tree.at(line[k as int] as int).last_move.unwrap()@);
            if k == 0 {
                assert(r@ =~= after[0]);
            }
        }
        k = k + 1;
    }
    r
}

/// Every node of a line is in the tree, and the move to each node after
/// the first is known.
proof fn lemma_line_moves(t: Tree, n: int)
    requires
        t.shaped(),
        0 <= n < t.size(),
        t.at(n).last_move is Some,
    ensures
        forall|i: int|
            0 <= i < t.line(n).len() ==> (#[trigger] t.line(n)[i]) < t.size() && t.at(
                t.line(n)[i] as int,
            ).last_move is Some,
    decreases t.size() - n,
{
    match t.best_of(n) {
        Some(c) => {
            if n < c < t.size() {
                assert(t.node_wf(n));
                lemma_best_kid_bound(t, n, t.at(n).children@.len());
                let j = t.best_kid(n, t.at(n).children@.len());
                assert(t.at(n).children@[j] == c);
                assert(t.node_wf(c as int));
                lemma_line_moves(t, c as int);
                let rest = t.line(c as int);
                assert forall|i: int| 0 <= i < t.line(n).len() implies (#[trigger] t.line(n)[i])
                    < t.size() && t.at(t.line(n)[i] as int).last_move is Some by {
                    if i > 0 {
                        assert(t.line(n)[i] == rest[i - 1]);
                    }
                }
            }
        },
        None => {},
    }
}

} // verus!
