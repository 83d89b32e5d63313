use ragnarook::board::Board;
use ragnarook::magic::MagicTables;
use ragnarook::misc::cp_to_eval;
use ragnarook::search::{
    decr_proc_threads, forced_stop, get_bestmove, get_pv, moves_to_go, needs_extension,
    out_of_memory,
    propagate_values, pv_text, ranked_children, score_text, stop_searching, Ending, Node, Step,
    Tree,
};
use ragnarook::uci::UciGo;
use std::cmp::Ordering;

fn tables() -> MagicTables {
    MagicTables::standard().unwrap()
}

const START: &str = "rnbqkbnr/pppppppp/8/8/8/8/PPPPPPPP/RNBQKBNR w KQkq - 0 1";

fn tree_of(fen: &str) -> Tree {
    let board = Board::new(fen);
    assert!(board.has_both_kings());
    Tree::new(board, tables())
}

/// The score of a child for the selection, as a number that orders like it.
fn score(tree: &Tree, parent: usize, child: usize) -> u64 {
    let p = tree.node(parent);
    let c = tree.node(child);
    let prob = cp_to_eval(c.eval);
    let eval = prob.num as f64 / prob.den as f64;
    let explore = ((p.visits as f64).ln() / (c.visits as f64 + 50.0 * c.proc_threads as f64)).sqrt();
    let scale = 1.02f64.powf(50.0 - 100.0);
    let s = if p.board.is_w_move { eval } else { 1.0 - eval } + scale * explore;
    s.to_bits()
}

/// One iteration of the search. Says whether the tree grew.
fn iterate(tree: &mut Tree) -> bool {
    let mut step = tree.start_descent();
    loop {
        match step {
            Step::GameOver | Step::Solved => return false,
            Step::Choose(n) => {
                let scores: Vec<u64> =
                    tree.node(n).children.iter().map(|&c| score(tree, n, c)).collect();
                step = tree.descend(n, &scores);
            }
            Step::Expand(n) => return tree.grow(n),
        }
    }
}

fn check_statistics(tree: &Tree) {
    for n in 0..tree.len() {
        let node = tree.node(n);
        assert_eq!(node.proc_threads, 0);
        if node.children.is_empty() {
            continue;
        }
        let kids: Vec<&Node> = node.children.iter().map(|&c| tree.node(c)).collect();
        assert_eq!(node.visits, 1 + kids.iter().map(|k| k.visits).sum::<u32>());
        assert_eq!(node.depth, 1 + kids.iter().map(|k| k.depth).max().unwrap());
        if node.board.is_w_move {
            assert_eq!(node.eval, kids.iter().map(|k| k.eval).max().unwrap());
        } else {
            assert_eq!(node.eval, kids.iter().map(|k| k.eval).min().unwrap());
        }
        let mover_wins: Vec<u32> = kids
            .iter()
            .filter_map(|k| match (k.ending, node.board.is_w_move) {
                (Some(Ending::WhiteWin(m)), true) => Some(m),
                (Some(Ending::BlackWin(m)), false) => Some(m),
                _ => None,
            })
            .collect();
        if let Some(&quickest) = mover_wins.iter().min() {
            let expected = if node.board.is_w_move {
                Ending::WhiteWin(quickest + 1)
            } else {
                Ending::BlackWin(quickest + 1)
            };
            assert_eq!(node.ending, Some(expected));
        }
    }
}

#[test]
fn statistics_agree_with_the_children_after_every_iteration() {
    let mut tree = tree_of(START);
    for _ in 0..60 {
        assert!(iterate(&mut tree));
        check_statistics(&tree);
    }
    assert!(tree.len() > 60);
    assert_eq!(tree.node(0).visits as usize, tree.len());
    assert!(tree.node(0).depth >= 2);
}

#[test]
fn a_mate_in_one_is_found() {
    let mut tree = tree_of("6k1/5ppp/8/8/8/8/8/R6K w - - 0 1");
    let mut rounds = 0;
    while tree.node(0).ending.is_none() {
        assert!(iterate(&mut tree));
        check_statistics(&tree);
        rounds += 1;
        assert!(rounds < 500);
    }
    assert_eq!(tree.node(0).ending, Some(Ending::WhiteWin(1)));
    let best = get_bestmove(&tree, 0).unwrap();
    assert_eq!(tree.node(best).last_move.as_deref(), Some("a1a8"));
    assert_eq!(tree.node(best).ending, Some(Ending::WhiteWin(0)));
    assert_eq!(tree.node(best).visits, 1);
    assert_eq!(tree.node(best).eval, 0);
    assert_eq!(tree.node(best).depth, 1);
    // The game is over at the root: no descent starts.
    assert_eq!(tree.start_descent(), Step::GameOver);
    assert!(tree.cursors.is_empty());
    assert_eq!(get_pv(&tree, 0), vec![0, best]);
}

#[test]
fn a_stalemate_is_a_draw() {
    let mut tree = tree_of("7k/5Q2/6K1/8/8/8/8/8 b - - 0 1");
    assert_eq!(tree.start_descent(), Step::Expand(0));
    assert!(tree.grow(0));
    assert_eq!(tree.len(), 1);
    assert_eq!(tree.node(0).ending, Some(Ending::Draw));
    assert_eq!(tree.node(0).depth, 1);
    assert_eq!(tree.node(0).visits, 1);
    assert_eq!(tree.start_descent(), Step::GameOver);
}

#[test]
fn a_mated_side_has_lost_in_no_moves() {
    let mut tree = tree_of("R5k1/5ppp/8/8/8/8/8/7K b - - 1 1");
    assert_eq!(tree.start_descent(), Step::Expand(0));
    assert!(tree.grow(0));
    assert_eq!(tree.node(0).ending, Some(Ending::WhiteWin(0)));
    let mut tree = tree_of("6rk/5Npp/8/8/8/8/8/7K b - - 0 1");
    tree.start_descent();
    tree.grow(0);
    assert_eq!(tree.node(0).ending, Some(Ending::WhiteWin(0)));
    let mut tree = tree_of("7k/8/8/8/8/8/5PPP/r5K1 w - - 0 1");
    tree.start_descent();
    tree.grow(0);
    assert_eq!(tree.node(0).ending, Some(Ending::BlackWin(0)));
}

#[test]
fn the_descent_follows_the_greatest_score() {
    let mut tree = tree_of(START);
    assert_eq!(tree.start_descent(), Step::Expand(0));
    assert_eq!(tree.cursors, vec![0]);
    assert_eq!(tree.node(0).proc_threads, 1);
    assert!(tree.grow(0));
    assert!(tree.cursors.is_empty());
    assert_eq!(tree.node(0).proc_threads, 0);
    assert_eq!(tree.start_descent(), Step::Choose(0));
    let mut scores = vec![5u64; 20];
    scores[7] = 9;
    scores[12] = 9;
    let seventh = tree.node(0).children[7];
    assert_eq!(tree.descend(0, &scores), Step::Expand(seventh));
    assert_eq!(tree.cursors, vec![seventh]);
    assert_eq!(tree.node(0).proc_threads, 1);
    assert_eq!(tree.node(seventh).proc_threads, 1);
    assert_eq!(tree.node(tree.node(0).children[12]).proc_threads, 0);
    assert!(tree.grow(seventh));
    assert_eq!(tree.node(seventh).children.len(), 20);
    assert_eq!(tree.node(seventh).proc_threads, 0);
    assert_eq!(tree.node(0).visits, 41);
    assert_eq!(tree.node(0).depth, 2);
    check_statistics(&tree);
}

#[test]
fn decided_children_are_passed_over() {
    // Black has two moves: one runs into mate, the other does not.
    let mut tree = tree_of("7k/R7/6K1/8/8/8/8/8 b - - 0 1");
    tree.start_descent();
    tree.grow(0);
    assert_eq!(tree.node(0).children.len(), 1);
    let only = tree.node(0).children[0];
    assert_eq!(tree.node(only).last_move.as_deref(), Some("h8g8"));
    assert_eq!(tree.start_descent(), Step::Choose(0));
    assert_eq!(tree.descend(0, &vec![0]), Step::Expand(only));
    tree.grow(only);
    // White mates with the rook on a8.
    let mate = *tree
        .node(only)
        .children
        .iter()
        .find(|&&c| tree.node(c).last_move.as_deref() == Some("a7a8"))
        .unwrap();
    let at = tree.node(only).children.iter().position(|&c| c == mate).unwrap();
    assert_eq!(tree.start_descent(), Step::Choose(0));
    assert_eq!(tree.descend(0, &vec![0]), Step::Choose(only));
    let mut scores = vec![0u64; tree.node(only).children.len()];
    scores[at] = 1;
    assert_eq!(tree.descend(only, &scores), Step::Expand(mate));
    tree.grow(mate);
    assert_eq!(tree.node(mate).ending, Some(Ending::WhiteWin(0)));
    assert_eq!(tree.node(only).ending, Some(Ending::WhiteWin(1)));
    assert_eq!(tree.node(0).ending, Some(Ending::WhiteWin(2)));
    check_statistics(&tree);
}

#[test]
fn a_node_whose_children_are_all_decided_is_given_up() {
    let mut tree = tree_of("4k3/8/8/8/8/8/8/4K2R w K - 48 30");
    tree.start_descent();
    tree.grow(0);
    // After a quiet move the clock stands at 49: those children are undecided.
    assert!(tree.node(0).ending.is_none());
    let first = tree.node(0).children[0];
    assert_eq!(tree.start_descent(), Step::Choose(0));
    let mut scores = vec![0u64; tree.node(0).children.len()];
    scores[0] = 1;
    assert_eq!(tree.descend(0, &scores), Step::Expand(first));
    tree.grow(first);
    // Every answer brings the clock to 50: drawn, and so is the child.
    assert!(tree.node(first).children.iter().all(|&c| tree.node(c).ending == Some(Ending::Draw)));
    assert_eq!(tree.node(first).ending, Some(Ending::Draw));
    check_statistics(&tree);
}

fn node(fen: &str, ending: Option<Ending>, visits: u32, eval: i32) -> Node {
    let mut n = Node::new(Board::new(fen));
    n.ending = ending;
    n.visits = visits;
    n.eval = eval;
    n
}

#[test]
fn siblings_are_ordered_for_white() {
    // Black is to move in the children: White chooses among them.
    let fen = "4k3/8/8/8/8/8/8/4K3 b - - 0 1";
    let win1 = node(fen, Some(Ending::WhiteWin(1)), 1, 0);
    let win3 = node(fen, Some(Ending::WhiteWin(3)), 1, 0);
    let draw = node(fen, Some(Ending::Draw), 1, 0);
    let loss1 = node(fen, Some(Ending::BlackWin(1)), 1, 0);
    let loss3 = node(fen, Some(Ending::BlackWin(3)), 1, 0);
    let good = node(fen, None, 10, 120);
    let bad = node(fen, None, 10, -120);
    let level = node(fen, None, 10, 0);
    let busy = node(fen, None, 11, -500);
    assert_eq!(win1.partial_cmp(&win3), Some(Ordering::Greater));
    assert_eq!(win3.partial_cmp(&win1), Some(Ordering::Less));
    assert_eq!(win3.partial_cmp(&draw), Some(Ordering::Greater));
    assert_eq!(draw.partial_cmp(&loss3), Some(Ordering::Greater));
    assert_eq!(loss3.partial_cmp(&loss1), Some(Ordering::Greater));
    assert_eq!(loss1.partial_cmp(&win3), Some(Ordering::Less));
    assert_eq!(draw.partial_cmp(&draw), Some(Ordering::Equal));
    assert_eq!(win1.partial_cmp(&good), Some(Ordering::Greater));
    assert_eq!(good.partial_cmp(&win3), Some(Ordering::Less));
    assert_eq!(loss3.partial_cmp(&bad), Some(Ordering::Less));
    assert_eq!(bad.partial_cmp(&loss1), Some(Ordering::Greater));
    assert_eq!(draw.partial_cmp(&good), Some(Ordering::Less));
    assert_eq!(draw.partial_cmp(&bad), Some(Ordering::Greater));
    assert_eq!(draw.partial_cmp(&level), Some(Ordering::Equal));
    assert_eq!(good.partial_cmp(&draw), Some(Ordering::Greater));
    assert_eq!(bad.partial_cmp(&draw), Some(Ordering::Less));
    assert_eq!(good.partial_cmp(&bad), Some(Ordering::Greater));
    assert_eq!(bad.partial_cmp(&good), Some(Ordering::Less));
    assert_eq!(good.partial_cmp(&good), Some(Ordering::Equal));
    assert_eq!(busy.partial_cmp(&good), Some(Ordering::Greater));
    assert!(good.eq(&good));
    assert!(!good.eq(&bad));
    assert!(good.better(&bad));
    assert!(!bad.better(&good));
    assert!(good.not_worse(&good));
    assert!(!bad.not_worse(&good));
}

#[test]
fn siblings_are_ordered_for_black() {
    // White is to move in the children: Black chooses among them.
    let fen = "4k3/8/8/8/8/8/8/4K3 w - - 0 1";
    let win1 = node(fen, Some(Ending::BlackWin(1)), 1, 0);
    let win3 = node(fen, Some(Ending::BlackWin(3)), 1, 0);
    let draw = node(fen, Some(Ending::Draw), 1, 0);
    let loss1 = node(fen, Some(Ending::WhiteWin(1)), 1, 0);
    let loss3 = node(fen, Some(Ending::WhiteWin(3)), 1, 0);
    let good = node(fen, None, 10, -120);
    let bad = node(fen, None, 10, 120);
    assert_eq!(win1.partial_cmp(&win3), Some(Ordering::Greater));
    assert_eq!(win3.partial_cmp(&draw), Some(Ordering::Greater));
    assert_eq!(draw.partial_cmp(&loss3), Some(Ordering::Greater));
    assert_eq!(loss3.partial_cmp(&loss1), Some(Ordering::Greater));
    assert_eq!(win3.partial_cmp(&good), Some(Ordering::Greater));
    assert_eq!(loss3.partial_cmp(&bad), Some(Ordering::Less));
    assert_eq!(draw.partial_cmp(&good), Some(Ordering::Less));
    assert_eq!(draw.partial_cmp(&bad), Some(Ordering::Greater));
    assert_eq!(good.partial_cmp(&bad), Some(Ordering::Greater));
    assert_eq!(good.partial_cmp(&good), Some(Ordering::Equal));
}

#[test]
fn nodes_with_different_sides_to_move_do_not_compare() {
    let a = node("4k3/8/8/8/8/8/8/4K3 w - - 0 1", None, 1, 0);
    let b = node("4k3/8/8/8/8/8/8/4K3 b - - 0 1", None, 1, 0);
    assert_eq!(a.partial_cmp(&b), None);
    assert!(!a.eq(&b));
    assert!(!a.better(&b));
}

#[test]
fn a_spawned_node_has_the_turn_passed() {
    let mut board = Board::new(START);
    board.make_move(ragnarook::board::Move { from: 12, to: 28, promotion: None });
    let child = Node::spawn(0, board, "e2e4".to_string());
    assert_eq!(child.board.to_fen(), "rnbqkbnr/pppppppp/8/8/4P3/8/PPPP1PPP/RNBQKBNR b KQkq e3 0 1");
    assert_eq!(child.visits, 1);
    assert_eq!(child.depth, 0);
    assert_eq!(child.eval, 2);
    assert_eq!(child.ending, None);
    assert_eq!(child.parent, Some(0));
    assert_eq!(child.last_move.as_deref(), Some("e2e4"));
    assert!(child.children.is_empty());
    let mut late = Board::new("4k3/8/8/8/8/8/8/4K2R b - - 49 30");
    late.make_move(ragnarook::board::Move { from: 60, to: 59, promotion: None });
    let drawn = Node::spawn(3, late, "e8d8".to_string());
    assert_eq!(drawn.ending, Some(Ending::Draw));
    assert_eq!(drawn.board.fullmove_clock, 31);
}

#[test]
fn the_best_move_and_the_ranking() {
    let mut tree = tree_of(START);
    assert_eq!(get_bestmove(&tree, 0), None);
    assert_eq!(get_pv(&tree, 0), vec![0]);
    assert!(ranked_children(&tree, 0).is_empty());
    for _ in 0..40 {
        iterate(&mut tree);
    }
    let best = get_bestmove(&tree, 0).unwrap();
    for &c in tree.node(0).children.iter() {
        assert!(tree.node(best).not_worse(tree.node(c)));
    }
    let ranked = ranked_children(&tree, 0);
    let mut sorted = ranked.clone();
    sorted.sort();
    let mut kids = tree.node(0).children.clone();
    kids.sort();
    assert_eq!(sorted, kids);
    for pair in ranked.windows(2) {
        assert!(tree.node(pair[0]).not_worse(tree.node(pair[1])));
    }
    assert_eq!(ranked[0], best);
    let pv = get_pv(&tree, 0);
    assert_eq!(pv[0], 0);
    assert_eq!(pv[1], best);
    for pair in pv.windows(2) {
        assert_eq!(tree.node(pair[1]).parent, Some(pair[0]));
        assert_eq!(get_bestmove(&tree, pair[0]), Some(pair[1]));
    }
    assert!(tree.node(*pv.last().unwrap()).children.is_empty());
}

#[test]
fn the_search_stops_on_its_budget() {
    let mut tree = tree_of(START);
    let go = UciGo::Infinite;
    // A root with fewer than two children.
    assert!(stop_searching(&tree, 0, &go, 100, 4096, 0));
    for _ in 0..30 {
        iterate(&mut tree);
    }
    let visits = tree.node(0).visits;
    assert_eq!(visits as usize, tree.len());
    assert!(600 < visits && visits < 1191);
    assert!(!stop_searching(&tree, 1_000_000, &go, 100, 4096, 0));
    // Some hundred nodes of 880 bytes are more than no memory, and less than a mebibyte.
    assert!(stop_searching(&tree, 0, &go, 100, 0, 0));
    assert!(!stop_searching(&tree, 0, &go, 100, 1, 0));
    assert!(!stop_searching(&tree, 0, &UciGo::Nodes { count: visits }, 100, 4096, 0));
    assert!(stop_searching(&tree, 0, &UciGo::Nodes { count: visits - 1 }, 100, 4096, 0));
    let depth = tree.node(0).depth;
    assert!(depth >= 2);
    assert!(!stop_searching(&tree, 0, &UciGo::Depth { plies: depth }, 100, 4096, 0));
    assert!(stop_searching(&tree, 0, &UciGo::Depth { plies: depth - 1 }, 100, 4096, 0));
    assert!(!stop_searching(&tree, 999, &UciGo::Movetime { mseconds: 1000 }, 100, 4096, 0));
    assert!(stop_searching(&tree, 1000, &UciGo::Movetime { mseconds: 1000 }, 100, 4096, 0));
    let time = UciGo::Time {
        wtime: Some(60_000),
        btime: None,
        winc: Some(500),
        binc: Some(7),
        movestogo: None,
    };
    // A share of 1000 ms and the increment of 500 ms.
    assert!(!stop_searching(&tree, 1499, &time, 100, 4096, 1000));
    assert!(stop_searching(&tree, 1500, &time, 100, 4096, 1000));
    // Never more than the time left less the overhead.
    assert!(!stop_searching(&tree, 59_899, &time, 100, 4096, 100_000));
    assert!(stop_searching(&tree, 59_900, &time, 100, 4096, 100_000));
    assert!(stop_searching(&tree, 0, &time, 60_000, 4096, 100_000));
}

#[test]
fn moves_to_go_are_given_or_expected() {
    let tree = tree_of(START);
    let time = UciGo::Time { wtime: Some(1), btime: None, winc: None, binc: None, movestogo: Some(7) };
    assert_eq!(moves_to_go(&tree, &time), 7);
    let time = UciGo::Time { wtime: Some(1), btime: None, winc: None, binc: None, movestogo: None };
    assert_eq!(moves_to_go(&tree, &time), 50);
    assert_eq!(moves_to_go(&tree, &UciGo::Infinite), 50);
}

#[test]
fn more_time_is_due_when_the_best_move_is_not_clear() {
    let mut tree = tree_of(START);
    assert!(!needs_extension(&tree));
    tree.start_descent();
    tree.grow(0);
    // All children have one visit: the best is the one with the best evaluation.
    let ranked = ranked_children(&tree, 0);
    let top = tree.node(ranked[0]).eval;
    let second = ranked[1..].iter().map(|&c| tree.node(c).eval).max().unwrap();
    assert_eq!(needs_extension(&tree), top <= second);
    // A single move needs no thought.
    let mut forced = tree_of("7k/R7/6K1/8/8/8/8/8 b - - 0 1");
    forced.start_descent();
    forced.grow(0);
    assert!(!needs_extension(&forced));
}

#[test]
fn the_root_advances_into_the_tree() {
    let mut tree = tree_of(START);
    for _ in 0..25 {
        iterate(&mut tree);
    }
    let size = tree.len();
    let child = *tree
        .node(0)
        .children
        .iter()
        .find(|&&c| !tree.node(c).children.is_empty())
        .unwrap();
    let grandchild = tree.node(child).children[3];
    let board = tree.node(grandchild).board;
    assert!(tree.advance(&board));
    assert_eq!(tree.root, grandchild);
    assert_eq!(tree.len(), size);
    // The same position again: the root stays.
    assert!(tree.advance(&board));
    assert_eq!(tree.root, grandchild);
    // A position that is not near the root.
    assert!(!tree.advance(&Board::new(START)));
    assert_eq!(tree.root, grandchild);
    // The search goes on below the new root.
    for _ in 0..10 {
        assert!(iterate(&mut tree));
        check_statistics(&tree);
    }
    assert!(tree.len() > size);
}

#[test]
fn values_are_carried_up_from_an_expanded_leaf() {
    let mut tree = tree_of(START);
    assert_eq!(tree.start_descent(), Step::Expand(0));
    assert!(ragnarook::move_gen::bloom(&mut tree, 0));
    // The children hang under the root, which does not count them yet.
    assert_eq!(tree.node(0).children.len(), 20);
    assert_eq!(tree.node(0).visits, 1);
    assert_eq!(tree.node(0).depth, 1);
    propagate_values(&mut tree, 0);
    assert_eq!(tree.node(0).visits, 21);
    assert_eq!(tree.node(0).eval, tree.node(0).children.iter().map(|&c| tree.node(c).eval).max().unwrap());
    assert_eq!(tree.node(0).proc_threads, 0);
    assert!(tree.cursors.is_empty());
}

#[test]
fn scores_are_written_for_the_status_line() {
    let fen = "4k3/8/8/8/8/8/8/4K3 b - - 0 1";
    assert_eq!(score_text(&node(fen, Some(Ending::Draw), 1, 77)), "cp 0");
    assert_eq!(score_text(&node(fen, Some(Ending::WhiteWin(3)), 1, 77)), "mate 3");
    assert_eq!(score_text(&node(fen, Some(Ending::BlackWin(12)), 1, 77)), "mate -12");
    assert_eq!(score_text(&node(fen, Some(Ending::WhiteWin(0)), 1, 77)), "mate 0");
    assert_eq!(score_text(&node(fen, None, 1, 77)), "cp 77");
    assert_eq!(score_text(&node(fen, None, 1, -915)), "cp -915");
    assert_eq!(score_text(&node(fen, None, 1, 0)), "cp 0");
    assert_eq!(score_text(&node(fen, None, 1, i32::MIN)), "cp -2147483648");
}

#[test]
fn the_principal_variation_is_written_move_by_move() {
    let mut tree = tree_of("7k/R7/6K1/8/8/8/8/8 b - - 0 1");
    tree.start_descent();
    tree.grow(0);
    let only = tree.node(0).children[0];
    assert_eq!(pv_text(&tree, only), "h8g8");
    assert_eq!(tree.start_descent(), Step::Choose(0));
    tree.descend(0, &vec![0]);
    tree.grow(only);
    let answer = get_bestmove(&tree, only).unwrap();
    let text = pv_text(&tree, only);
    assert_eq!(text, format!("h8g8 {}", tree.node(answer).last_move.as_deref().unwrap()));
    assert_eq!(pv_text(&tree, answer), tree.node(answer).last_move.clone().unwrap());
}

#[test]
fn a_forced_move_stops_the_search_whatever_the_clocks() {
    // One legal move: nothing is asked of the overhead, the memory or the clocks.
    let mut forced = tree_of("7k/R7/6K1/8/8/8/8/8 b - - 0 1");
    forced.start_descent();
    forced.grow(0);
    assert!(forced_stop(&forced));
    let time = UciGo::Time { wtime: None, btime: None, winc: None, binc: None, movestogo: None };
    assert!(stop_searching(&forced, 0, &time, 5000, -1, 0));
    assert!(stop_searching(&forced, 0, &UciGo::Infinite, -7, -1, 0));
    // A root that is not expanded has no children either.
    let fresh = tree_of(START);
    assert!(forced_stop(&fresh));
    assert!(stop_searching(&fresh, 0, &time, 5000, -1, 0));
    // Memory spent: the clocks are not looked at.
    let mut tree = tree_of(START);
    for _ in 0..3 {
        iterate(&mut tree);
    }
    assert!(!forced_stop(&tree));
    assert!(out_of_memory(&tree, 0));
    assert!(!out_of_memory(&tree, 1));
    assert!(stop_searching(&tree, 0, &time, 5000, 0, 0));
}

#[test]
fn a_leaf_without_moves_keeps_its_height() {
    let mut tree = tree_of("7k/5Q2/6K1/8/8/8/8/8 b - - 0 1");
    tree.start_descent();
    assert!(ragnarook::move_gen::bloom(&mut tree, 0));
    assert_eq!(tree.node(0).depth, 1);
    propagate_values(&mut tree, 0);
    assert_eq!(tree.node(0).depth, 1);
    assert_eq!(tree.node(0).visits, 1);
    assert_eq!(tree.node(0).eval, 0);
    assert_eq!(tree.node(0).ending, Some(Ending::Draw));
}

#[test]
fn descents_under_way_are_counted() {
    let mut tree = tree_of(START);
    tree.start_descent();
    tree.grow(0);
    // Three descents start one after the other and stand at the root.
    assert_eq!(tree.start_descent(), Step::Choose(0));
    assert_eq!(tree.start_descent(), Step::Choose(0));
    assert_eq!(tree.start_descent(), Step::Choose(0));
    assert_eq!(tree.cursors, vec![0, 0, 0]);
    assert_eq!(tree.node(0).proc_threads, 3);
    let mut scores = vec![0u64; 20];
    scores[4] = 7;
    let fourth = tree.node(0).children[4];
    // The first goes to a child and is to expand it.
    assert_eq!(tree.descend(0, &scores), Step::Expand(fourth));
    assert_eq!(tree.cursors, vec![fourth, 0, 0]);
    assert_eq!(tree.node(0).proc_threads, 3);
    assert_eq!(tree.node(fourth).proc_threads, 1);
    // The second follows, finds the node taken and is given up.
    assert_eq!(tree.descend(0, &scores), Step::Solved);
    assert_eq!(tree.cursors, vec![fourth, 0]);
    assert_eq!(tree.node(0).proc_threads, 2);
    assert_eq!(tree.node(fourth).proc_threads, 1);
    // The third is sent elsewhere.
    scores[4] = 0;
    scores[9] = 7;
    let ninth = tree.node(0).children[9];
    assert_eq!(tree.descend(0, &scores), Step::Expand(ninth));
    assert_eq!(tree.cursors, vec![fourth, ninth]);
    // Each expands its node; the counters go back as the descents end.
    assert!(tree.grow(ninth));
    assert_eq!(tree.cursors, vec![fourth]);
    assert_eq!(tree.node(0).proc_threads, 1);
    assert_eq!(tree.node(ninth).proc_threads, 0);
    assert_eq!(tree.node(fourth).proc_threads, 1);
    assert!(tree.grow(fourth));
    assert!(tree.cursors.is_empty());
    for n in 0..tree.len() {
        assert_eq!(tree.node(n).proc_threads, 0);
    }
    check_statistics(&tree);
    assert_eq!(tree.node(0).visits, 61);
}

#[test]
fn a_descent_goes_on_while_another_finds_a_mate() {
    // Black has one move, after which White mates at once.
    let mut tree = tree_of("7k/R7/6K1/8/8/8/8/8 b - - 0 1");
    tree.start_descent();
    tree.grow(0);
    let only = tree.node(0).children[0];
    assert_eq!(tree.start_descent(), Step::Choose(0));
    assert_eq!(tree.descend(0, &vec![0]), Step::Expand(only));
    tree.grow(only);
    // Two descents stand at the child while a third finds the mate below it.
    assert_eq!(tree.start_descent(), Step::Choose(0));
    assert_eq!(tree.descend(0, &vec![0]), Step::Choose(only));
    assert_eq!(tree.start_descent(), Step::Choose(0));
    assert_eq!(tree.descend(0, &vec![0]), Step::Choose(only));
    let at = tree
        .node(only)
        .children
        .iter()
        .position(|&c| tree.node(c).last_move.as_deref() == Some("a7a8"))
        .unwrap();
    let mate = tree.node(only).children[at];
    let mut scores = vec![0u64; tree.node(only).children.len()];
    scores[at] = 1;
    assert_eq!(tree.descend(only, &scores), Step::Expand(mate));
    tree.grow(mate);
    assert_eq!(tree.node(0).ending, Some(Ending::WhiteWin(2)));
    // The child is decided now, but its other children are not: the descent goes on.
    assert_eq!(tree.cursors, vec![only]);
    assert_eq!(tree.node(only).proc_threads, 1);
    scores[at] = 0;
    let r = tree.descend(only, &scores);
    assert!(matches!(r, Step::Expand(_)));
    let at = tree.cursors[0];
    decr_proc_threads(&mut tree, at);
    assert!(tree.cursors.is_empty());
    for n in 0..tree.len() {
        assert_eq!(tree.node(n).proc_threads, 0);
    }
}
