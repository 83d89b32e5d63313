//! The order among the children of a node.

use crate::search::{Ending, Node, compare};
use std::cmp::Ordering;
use vstd::prelude::*;

verus! {

fn order_u32(a: u32, b: u32) -> (o: Ordering)
    ensures
        o == crate::search::order_of(crate::search::number(a), crate::search::number(b)),
{
    if a < b {
        Ordering::Less
    } else if a > b {
        Ordering::Greater
    } else {
        Ordering::Equal
    }
}

/// Compares two evaluations for White, or for Black if `white` is false.
fn order_eval(a: i32, b: i32, white: bool) -> (o: Ordering)
    ensures
        o == crate::search::order_of(crate::search::seen(a, white), crate::search::seen(b, white)),
{
    if white {
        if a < b {
            Ordering::Less
        } else if a > b {
            Ordering::Greater
        } else {
            Ordering::Equal
        }
    } else {
        if b < a {
            Ordering::Less
        } else if b > a {
            Ordering::Greater
        } else {
            Ordering::Equal
        }
    }
}

/// What an ending is worth to the side `white`.
fn worth_of(e: Ending, white: bool) -> (w: u32)
    ensures
        crate::search::number(w) == crate::search::worth(e, white),
{
    match e {
        Ending::Draw => 1,
        Ending::WhiteWin(_) => if white {
            2
        } else {
            0
        },
        Ending::BlackWin(_) => if white {
            0
        } else {
            2
        },
    }
}

fn mate_in(e: Ending) -> (m: u32)
    ensures
        crate::search::number(m) == crate::search::moves_to_mate(e),
{
    match e {
        Ending::Draw => 0,
        Ending::WhiteWin(m) => m,
        Ending::BlackWin(m) => m,
    }
}

impl Node {
    /// Compares this node with a sibling for the side that chooses between
    /// them.
    pub fn partial_cmp(&self, other: &Node) -> (o: Option<Ordering>)
        ensures
            o == compare(*self, *other),
    {
        if self.board.is_w_move != other.board.is_w_move {
            return None;
        }
        let white = !self.board.is_w_move;
        let o = match (self.ending, other.ending) {
            (Some(x), Some(y)) => {
                let wx = worth_of(x, white);
                let wy = worth_of(y, white);
                if wx != wy {
                    order_u32(wx, wy)
                } else if wx == 2 {
                    order_u32(mate_in(y), mate_in(x))
                } else {
                    order_u32(mate_in(x), mate_in(y))
                }
            },
            (Some(x), None) => {
                let wx = worth_of(x, white);
                if wx == 1 {
                    order_eval(0, other.eval, white)
                } else {
                    order_u32(wx, 1)
                }
            },
            (None, Some(y)) => {
                let wy = worth_of(y, white);
                if wy == 1 {
                    order_eval(self.eval, 0, white)
                } else {
                    order_u32(1, wy)
                }
            },
            (None, None) => {
                if self.visits != other.visits {
                    order_u32(self.visits, other.visits)
                } else {
                    order_eval(self.eval, other.eval, white)
                }
            },
        };
        Some(o)
    }

    /// Whether the two nodes compare as equal.
    pub fn eq(&self, other: &Node) -> (e: bool)
        ensures
            e == (compare(*self, *other) == Some(Ordering::Equal)),
    {
        match self.partial_cmp(other) {
            Some(Ordering::Equal) => true,
            _ => false,
        }
    }

    /// Whether this node is to be preferred to `other`.
    pub fn better(&self, other: &Node) -> (r: bool)
        ensures
            r == crate::search::precedes(*self, *other),
    {
        match self.partial_cmp(other) {
            Some(Ordering::Greater) => true,
            _ => false,
        }
    }

    /// Whether this node is to be preferred to `other`, or is as good.
    pub fn not_worse(&self, other: &Node) -> (r: bool)
        ensures
            r == crate::search::at_least(*self, *other),
    {
        match self.partial_cmp(other) {
            Some(Ordering::Less) => false,
            _ => true,
        }
    }
}

/// Of two siblings, if one is to be preferred to the other, the other is
/// not to be preferred to it.
pub proof fn lemma_preference_one_way(a: Node, b: Node)
    requires
        crate::search::precedes(a, b),
    ensures
        !crate::search::precedes(b, a),
        crate::search::trails(b, a),
{
}

/// Siblings always compare: the order is total among the children of a
/// node.
pub proof fn lemma_siblings_compare(a: Node, b: Node)
    requires
        a.board.is_w_move == b.board.is_w_move,
    ensures
        compare(a, b) is Some,
{
}

} // verus!
