use peg_solitaire::board::{pos, Board, Position};
use peg_solitaire::gametree::{GameTree, GameTreeNode};

fn cells5(cells: &[(u8, u8)]) -> Board<5> {
    let cells: Vec<Position> = cells.iter().map(|&(x, y)| pos(x, y)).collect();
    Board::<5>::from_positions(&cells).expect("cells of the triangle")
}

fn without(board: Board<5>, holes: &[(u8, u8)]) -> Board<5> {
    board.filter(|p: &Position| !holes.contains(&(p.x, p.y)))
}

fn kids(tree: &GameTree<5>, i: usize) -> Vec<usize> {
    tree.children_indices(i).expect("a node").as_slice().to_vec()
}

#[test]
fn start_holds_the_root_only() {
    let board = Board::<5>::start(pos(0, 0));
    let tree = GameTree::start(board);
    let root = tree.get(0).expect("the root");
    assert_eq!(root.board, board);
    assert_eq!(root.parent, usize::MAX);
    assert_eq!(root.children.len(), 0);
    assert!(tree.get(1).is_none());
    assert!(tree.parent(0).is_none());
    assert_eq!(kids(&tree, 0), Vec::<usize>::new());
    assert!(tree.children_indices(1).is_none());
    assert!(tree.children(1).is_none());
    assert_eq!(tree.children(0).map(|c| c.len()), Some(0));
}

#[test]
fn default_tree_has_no_node() {
    let tree = GameTree::<5>::default();
    assert!(tree.get(0).is_none());
    assert!(tree.check_solvable(0).is_none());
}

#[test]
fn push_adds_a_node_below_the_parent() {
    let full = Board::<5>::full();
    let mut tree = GameTree::start(full);
    let first = without(full, &[(0, 0)]);
    assert_eq!(tree.push(0, first), (false, 1));
    let node = tree.get(1).expect("the new node");
    assert_eq!(node.board, first);
    assert_eq!(node.parent, 0);
    assert_eq!(node.children.as_slice(), &[] as &[usize]);
    assert_eq!(kids(&tree, 0), vec![1]);
    assert_eq!(tree.parent(1).map(|(i, n)| (i, n.board)), Some((0, full)));
    assert!(tree.get(2).is_none());
}

#[test]
fn push_twice_reuses_the_node() {
    let full = Board::<5>::full();
    let mut tree = GameTree::start(full);
    let first = without(full, &[(2, 1)]);
    let (reused, node) = tree.push(0, first);
    assert!(!reused);
    assert_eq!(tree.push(0, first), (true, node));
    assert_eq!(tree.push(0, first), (true, node));
    assert_eq!(kids(&tree, 0), vec![node]);
    assert!(tree.get(2).is_none());
}

#[test]
fn push_moves_the_reused_child_to_the_end() {
    let full = Board::<5>::full();
    let mut tree = GameTree::start(full);
    let a = without(full, &[(0, 0)]);
    let b = without(full, &[(1, 0)]);
    let c = without(full, &[(2, 0)]);
    assert_eq!(tree.push(0, a), (false, 1));
    assert_eq!(tree.push(0, b), (false, 2));
    assert_eq!(tree.push(0, c), (false, 3));
    assert_eq!(kids(&tree, 0), vec![1, 2, 3]);
    assert_eq!(tree.push(0, a), (true, 1));
    assert_eq!(kids(&tree, 0), vec![2, 3, 1]);
    assert_eq!(tree.push(0, b), (true, 2));
    assert_eq!(kids(&tree, 0), vec![3, 1, 2]);
    assert_eq!(tree.push(0, b), (true, 2));
    assert_eq!(kids(&tree, 0), vec![3, 1, 2]);
    let last = tree.children(0).expect("the root");
    assert_eq!(last.last().map(|&(i, node)| (i, node.board)), Some((2, b)));
}

#[test]
fn push_reparents_a_board_reached_another_way() {
    let full = Board::<5>::full();
    let mut tree = GameTree::start(full);
    let a = without(full, &[(0, 0)]);
    let b = without(full, &[(1, 0)]);
    let both = without(full, &[(0, 0), (1, 0)]);
    assert_eq!(tree.push(0, a), (false, 1));
    assert_eq!(tree.push(0, b), (false, 2));
    assert_eq!(tree.push(1, both), (false, 3));
    assert_eq!(tree.parent(3).map(|(i, _)| i), Some(1));
    assert_eq!(tree.push(2, both), (true, 3));
    assert_eq!(tree.parent(3).map(|(i, n)| (i, n.board)), Some((2, b)));
    assert_eq!(kids(&tree, 2), vec![3]);
    // the former parent keeps the child in its list
    assert_eq!(kids(&tree, 1), vec![3]);
    assert!(tree.get(4).is_none());
    assert_eq!(tree.push(1, both), (true, 3));
    assert_eq!(tree.parent(3).map(|(i, _)| i), Some(1));
}

#[test]
fn nodes_answer_for_themselves() {
    let full = Board::<5>::full();
    let mut tree = GameTree::start(full);
    let a = without(full, &[(0, 0)]);
    let b = without(full, &[(1, 0)]);
    tree.push(0, a);
    tree.push(0, b);
    let root = tree.get(0).unwrap();
    let below: Vec<Board<5>> = root.children(&tree).iter().map(|n| n.board).collect();
    assert_eq!(below, vec![a, b]);
    assert!(root.parent(&tree).is_none());
    let node = tree.get(2).unwrap();
    assert_eq!(node.parent(&tree).map(|n| n.board), Some(full));
    assert_eq!(node.children(&tree).len(), 0);
    let copy: GameTreeNode<5> = root.clone();
    assert_eq!(&copy, root);
    assert_eq!(copy.children.as_slice(), &[1, 2]);
}

#[test]
fn a_node_passes_over_children_that_the_tree_lacks() {
    let full = Board::<5>::full();
    let mut big = GameTree::start(full);
    big.push(0, without(full, &[(0, 0)]));
    big.push(0, without(full, &[(1, 0)]));
    let small = GameTree::start(full);
    let root = big.get(0).unwrap();
    assert_eq!(root.children(&small).len(), 0);
    assert_eq!(root.children(&big).len(), 2);
    let child = big.get(1).unwrap();
    assert_eq!(child.parent(&small).map(|n| n.board), Some(full));
}

#[test]
fn apply_move_inserts_the_board_after_the_jump() {
    let board = Board::<5>::start(pos(0, 0));
    let mut tree = GameTree::start(board);
    let after = board.apply_move(pos(2, 0), pos(0, 0)).unwrap();
    assert_eq!(tree.apply_move(0, pos(2, 0), pos(0, 0)), Some((false, 1, after)));
    assert_eq!(tree.get(1).map(|n| (n.board, n.parent)), Some((after, 0)));
    assert_eq!(tree.apply_move(0, pos(2, 0), pos(0, 0)), Some((true, 1, after)));
    let other = board.apply_move(pos(0, 2), pos(0, 0)).unwrap();
    assert_eq!(tree.apply_move(0, pos(0, 2), pos(0, 0)), Some((false, 2, other)));
    assert_eq!(kids(&tree, 0), vec![1, 2]);
}

#[test]
fn apply_move_leaves_the_tree_alone_without_a_jump() {
    let board = Board::<5>::start(pos(0, 0));
    let mut tree = GameTree::start(board);
    assert_eq!(tree.apply_move(0, pos(1, 0), pos(0, 0)), None);
    assert_eq!(tree.apply_move(0, pos(0, 0), pos(2, 0)), None);
    assert_eq!(tree.apply_move(1, pos(2, 0), pos(0, 0)), None);
    assert_eq!(tree.apply_move(usize::MAX, pos(2, 0), pos(0, 0)), None);
    assert!(tree.get(1).is_none());
    assert_eq!(kids(&tree, 0), Vec::<usize>::new());
}

#[test]
fn different_paths_meet_in_one_node() {
    let board = cells5(&[(0, 0), (1, 0), (0, 2), (0, 3)]);
    let mut tree = GameTree::start(board);
    let end = cells5(&[(2, 0), (0, 4)]);
    // two jumps that do not touch each other, made in either order
    assert_eq!(
        tree.apply_move(0, pos(0, 0), pos(2, 0)),
        Some((false, 1, cells5(&[(2, 0), (0, 2), (0, 3)])))
    );
    assert_eq!(
        tree.apply_move(0, pos(0, 2), pos(0, 4)),
        Some((false, 2, cells5(&[(0, 0), (1, 0), (0, 4)])))
    );
    assert_eq!(tree.apply_move(1, pos(0, 2), pos(0, 4)), Some((false, 3, end)));
    assert_eq!(tree.parent(3).map(|(i, _)| i), Some(1));
    assert_eq!(tree.apply_move(2, pos(0, 0), pos(2, 0)), Some((true, 3, end)));
    assert_eq!(tree.parent(3).map(|(i, _)| i), Some(2));
    assert_eq!(kids(&tree, 1), vec![3]);
    assert_eq!(kids(&tree, 2), vec![3]);
    assert!(tree.get(4).is_none());
    // both ways down are counted
    assert_eq!(tree.get(0).unwrap().num_solutions(&tree), 0);
    assert_eq!(tree.get(3).unwrap().num_solutions(&tree), 0);
}

#[test]
fn explore_covers_a_small_board() {
    let board = cells5(&[(0, 0), (1, 0)]);
    let mut tree = GameTree::start(board);
    assert_eq!(tree.explore(0), vec![1]);
    assert_eq!(tree.get(1).map(|n| n.board), Some(cells5(&[(2, 0)])));
    assert!(tree.get(2).is_none());
    assert_eq!(kids(&tree, 0), vec![1]);
    let root = tree.get(0).unwrap();
    assert_eq!(root.num_solutions(&tree), 1);
    assert_eq!(tree.get(1).unwrap().num_solutions(&tree), 1);
    assert_eq!(root.solvable(&tree), vec![1]);
    assert_eq!(tree.check_solvable(1), Some(vec![usize::MAX]));
    // a second search finds nothing new and starts from a node with two pegs
    assert_eq!(tree.explore(0), Vec::<usize>::new());
    assert_eq!(tree.explore(1), vec![1]);
}

#[test]
fn explore_from_a_single_peg_lists_it() {
    let board = cells5(&[(2, 1)]);
    let mut tree = GameTree::start(board);
    assert_eq!(tree.explore(0), vec![0]);
    assert!(tree.get(1).is_none());
    assert_eq!(tree.get(0).unwrap().num_solutions(&tree), 1);
    assert_eq!(tree.get(0).unwrap().checked_num_solutions(&tree), Some(1));
    assert_eq!(tree.check_solvable(0), Some(vec![usize::MAX]));
}

#[test]
fn a_full_board_cannot_be_solved() {
    let mut tree = GameTree::start(Board::<5>::full());
    assert_eq!(tree.explore(0), Vec::<usize>::new());
    assert!(tree.get(1).is_none());
    assert_eq!(tree.get(0).unwrap().num_solutions(&tree), 0);
    assert_eq!(tree.check_solvable(0), Some(vec![]));
    assert_eq!(tree.check_solvable(1), None);
}

#[test]
fn explore_the_triangle_of_four() {
    let mut tree = GameTree::start(Board::<4>::start(pos(1, 0)));
    assert_eq!(tree.explore(0), vec![41]);
    assert!(tree.get(61).is_some());
    assert!(tree.get(62).is_none());
    assert_eq!(tree.get(41).map(|n| n.board.count()), Some(1));
    assert_eq!(tree.get(41).map(|n| n.board.at(pos(0, 1))), Some(Some(true)));
    assert_eq!(tree.get(0).unwrap().num_solutions(&tree), 14);
    assert_eq!(tree.check_solvable(0), Some(vec![1]));
    let mut corner = GameTree::start(Board::<4>::start(pos(0, 0)));
    assert_eq!(corner.explore(0), Vec::<usize>::new());
    assert!(corner.get(41).is_some());
    assert!(corner.get(42).is_none());
    assert_eq!(corner.get(0).unwrap().num_solutions(&corner), 0);
    assert_eq!(corner.check_solvable(0), Some(vec![]));
}

#[test]
fn explore_solves_the_triangle_of_five() {
    let mut tree = GameTree::start(Board::<5>::start(pos(0, 0)));
    let solved = tree.explore(0);
    assert_eq!(solved, vec![477, 811, 810, 832]);
    for &i in &solved {
        assert_eq!(tree.get(i).map(|n| n.board.count()), Some(1));
    }
    assert!(tree.get(3015).is_some());
    assert!(tree.get(3016).is_none());
    assert_eq!(kids(&tree, 0), vec![1, 2]);
    assert_eq!(tree.check_solvable(0), Some(vec![1, 2]));
}

#[test]
fn the_corner_start_has_29760_solutions() {
    let mut tree = GameTree::start(Board::<5>::start(pos(0, 0)));
    tree.explore(0);
    let root = tree.get(0).unwrap();
    assert_eq!(root.num_solutions(&tree), 29760);
    assert_eq!(root.checked_num_solutions(&tree), Some(29760));
}

#[test]
fn every_child_has_one_peg_fewer_after_a_search() {
    let mut tree = GameTree::start(Board::<5>::start(pos(1, 1)));
    let solved = tree.explore(0);
    assert_eq!(solved.len(), 1);
    assert!(tree.get(1650).is_some());
    assert!(tree.get(1651).is_none());
    for i in 0..1651 {
        let node = tree.get(i).unwrap();
        let moves = node.board.all_valid_moves();
        let below = tree.children(i).unwrap();
        assert_eq!(below.len(), moves.len());
        for (child, next) in below {
            assert_eq!(next.board.count() + 1, node.board.count());
            assert!(child != i);
        }
        for (from, _, to) in moves {
            let next = node.board.apply_move(from, to).unwrap();
            assert!(tree.children(i).unwrap().iter().any(|(_, n)| n.board == next));
        }
    }
    assert_eq!(tree.get(0).unwrap().num_solutions(&tree), 1550);
}

#[test]
fn a_reused_child_moves_to_the_end_of_three() {
    let mut tree = GameTree::start(Board::<3>::full());
    let a = Board::<3>::start(pos(0, 0));
    let b = Board::<3>::start(pos(1, 0));
    let c = Board::<3>::start(pos(2, 0));
    assert_eq!(tree.push(0, a), (false, 1));
    assert_eq!(tree.push(0, b), (false, 2));
    assert_eq!(tree.push(0, c), (false, 3));
    assert_eq!(tree.push(0, a), (true, 1));
    assert_eq!(tree.children_indices(0).unwrap().as_slice(), &[2, 3, 1]);
    assert_eq!(tree.push(0, a), (true, 1));
    assert_eq!(tree.children_indices(0).unwrap().as_slice(), &[2, 3, 1]);
    assert_eq!(tree.push(0, c), (true, 3));
    assert_eq!(tree.children_indices(0).unwrap().as_slice(), &[2, 1, 3]);
    assert!(tree.get(4).is_none());
}

#[test]
fn push_takes_a_board_with_as_many_pegs() {
    let mut tree = GameTree::start(Board::<3>::full());
    let a = Board::<3>::start(pos(0, 0));
    let b = Board::<3>::start(pos(1, 0));
    let c = Board::<3>::start(pos(2, 0));
    assert_eq!(tree.push(0, a), (false, 1));
    assert_eq!(tree.push(0, b), (false, 2));
    assert!(tree.is_descending());
    assert_eq!(tree.push(1, c), (false, 3));
    assert!(!tree.is_descending());
    assert_eq!(tree.push(2, c), (true, 3));
    assert_eq!(tree.parent(3).map(|(i, _)| i), Some(2));
    assert_eq!(tree.children_indices(2).unwrap().as_slice(), &[3]);
    assert_eq!(tree.children_indices(1).unwrap().as_slice(), &[3]);
    assert!(tree.get(4).is_none());
}

#[test]
fn push_takes_the_board_of_the_parent_itself() {
    let full = Board::<3>::full();
    let mut tree = GameTree::start(full);
    assert_eq!(tree.push(0, full), (true, 0));
    assert_eq!(tree.children_indices(0).unwrap().as_slice(), &[0]);
    assert_eq!(tree.parent(0).map(|(i, _)| i), Some(0));
    assert_eq!(tree.push(0, full), (true, 0));
    assert_eq!(tree.children_indices(0).unwrap().as_slice(), &[0]);
    assert!(tree.get(1).is_none());
    assert!(!tree.is_descending());
}

#[test]
fn trees_grown_by_jumps_descend() {
    let mut tree = GameTree::start(Board::<4>::start(pos(1, 0)));
    assert!(tree.is_descending());
    tree.explore(0);
    assert!(tree.is_descending());
    assert!(GameTree::<5>::default().is_descending());
}
