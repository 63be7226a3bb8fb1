use peg_solitaire::board::transform::Symmetry;
use peg_solitaire::board::{pos, BitSet, Board, Position};

fn board5(cells: &[(u8, u8)]) -> Board<5> {
    let cells: Vec<Position> = cells.iter().map(|&(x, y)| pos(x, y)).collect();
    Board::<5>::from_positions(&cells).expect("cells of the triangle")
}

fn round_trips<const N: u8>() {
    for y in 0..=12u8 {
        for x in 0..=12u8 {
            let p = pos(x, y);
            let valid = y < N && x < N - y;
            assert_eq!(Board::<N>::valid_pos(p), valid);
            match Board::<N>::get_idx(p) {
                Some(i) => {
                    assert!(valid);
                    assert!(i < 64);
                    assert_eq!(i, x as usize + y as usize * Board::<N>::row_offset());
                    assert_eq!(Board::<N>::get_pos(i), Some(p));
                },
                None => assert!(!valid),
            }
        }
    }
    for i in 0..300usize {
        if let Some(p) = Board::<N>::get_pos(i) {
            assert_eq!(Board::<N>::get_idx(p), Some(i));
        }
    }
}

#[test]
fn full_board_of_five_has_fifteen_pegs() {
    let board = Board::<5>::full();
    assert_eq!(board.count(), 15);
}

#[test]
fn positions_are_built_from_their_coordinates() {
    assert_eq!(Position::new(3, 4), Position { x: 3, y: 4 });
    assert_eq!(Position::from((3, 4)), Position { x: 3, y: 4 });
    assert_eq!(pos(0, 255), Position { x: 0, y: 255 });
}

#[test]
fn positions_order_by_x_then_y() {
    assert!(pos(0, 4) < pos(1, 0));
    assert!(pos(1, 0) < pos(1, 1));
    let mut cells = vec![pos(2, 0), pos(0, 3), pos(1, 1), pos(0, 0)];
    cells.sort();
    assert_eq!(cells, vec![pos(0, 0), pos(0, 3), pos(1, 1), pos(2, 0)]);
}

#[test]
fn row_offset_is_the_least_power_of_two() {
    assert_eq!(Board::<0>::row_offset(), 1);
    assert_eq!(Board::<1>::row_offset(), 1);
    assert_eq!(Board::<2>::row_offset(), 2);
    assert_eq!(Board::<3>::row_offset(), 4);
    assert_eq!(Board::<4>::row_offset(), 4);
    assert_eq!(Board::<5>::row_offset(), 8);
    assert_eq!(Board::<7>::row_offset(), 8);
    assert_eq!(Board::<8>::row_offset(), 8);
    assert_eq!(Board::<9>::row_offset(), 16);
    assert_eq!(Board::<200>::row_offset(), 256);
}

#[test]
fn row_len_shrinks_row_by_row() {
    assert_eq!(Board::<5>::row_len(0), 5);
    assert_eq!(Board::<5>::row_len(4), 1);
    assert_eq!(Board::<5>::row_len(5), 0);
}

#[test]
fn index_round_trip_for_every_size() {
    round_trips::<1>();
    round_trips::<2>();
    round_trips::<3>();
    round_trips::<4>();
    round_trips::<5>();
    round_trips::<6>();
    round_trips::<7>();
    round_trips::<8>();
}

#[test]
fn indices_of_size_five() {
    assert_eq!(Board::<5>::get_idx(pos(0, 0)), Some(0));
    assert_eq!(Board::<5>::get_idx(pos(4, 0)), Some(4));
    assert_eq!(Board::<5>::get_idx(pos(3, 1)), Some(11));
    assert_eq!(Board::<5>::get_idx(pos(0, 4)), Some(32));
    assert_eq!(Board::<5>::get_idx(pos(5, 0)), None);
    assert_eq!(Board::<5>::get_idx(pos(4, 1)), None);
    assert_eq!(Board::<5>::get_idx(pos(0, 5)), None);
    assert_eq!(Board::<5>::get_idx(pos(255, 255)), None);
    assert_eq!(Board::<5>::get_pos(11), Some(pos(3, 1)));
    assert_eq!(Board::<5>::get_pos(5), None);
    assert_eq!(Board::<5>::get_pos(12), None);
    assert_eq!(Board::<5>::get_pos(40), None);
    assert_eq!(Board::<5>::get_pos(usize::MAX), None);
}

#[test]
fn full_board_has_a_peg_on_every_cell() {
    let board = Board::<5>::full();
    for p in Board::<5>::iter_all() {
        assert_eq!(board.at(p), Some(true));
    }
    assert_eq!(board.at(pos(5, 0)), None);
    assert_eq!(board.at(pos(2, 3)), None);
    assert_eq!(Board::<1>::full().count(), 1);
    assert_eq!(Board::<0>::full().count(), 0);
    assert_eq!(Board::<8>::full().count(), 36);
}

#[test]
fn start_leaves_one_hole() {
    for hole in Board::<5>::iter_all() {
        let board = Board::<5>::start(hole);
        assert_eq!(board.count(), 14);
        for p in Board::<5>::iter_all() {
            assert_eq!(board.at(p), Some(p != hole));
        }
    }
}

#[test]
fn start_at_no_cell_is_the_full_board() {
    assert_eq!(Board::<5>::start(pos(5, 0)), Board::<5>::full());
    assert_eq!(Board::<5>::start(pos(9, 9)).count(), 15);
}

#[test]
fn rows_are_cut_out_of_the_board() {
    let board = Board::<5>::start(pos(0, 0));
    assert_eq!(board.row(0), Some(BitSet::new(0b11110)));
    assert_eq!(board.row(1), Some(BitSet::new(0b1111)));
    assert_eq!(board.row(4), Some(BitSet::new(0b1)));
    assert_eq!(board.row(5), None);
    assert_eq!(board.row(200), None);
    let other = Board::<5>::start(pos(1, 2));
    assert_eq!(other.row(2), Some(BitSet::new(0b101)));
}

#[test]
fn iter_all_goes_row_by_row() {
    let cells = Board::<3>::iter_all();
    assert_eq!(cells, vec![pos(0, 0), pos(1, 0), pos(2, 0), pos(0, 1), pos(1, 1), pos(0, 2)]);
    assert_eq!(Board::<5>::iter_all().len(), 15);
    assert_eq!(Board::<0>::iter_all().len(), 0);
}

#[test]
fn iter_stones_lists_the_pegs() {
    let board = Board::<3>::start(pos(1, 0));
    assert_eq!(
        board.iter_stones(),
        vec![pos(0, 0), pos(2, 0), pos(0, 1), pos(1, 1), pos(0, 2)]
    );
    assert_eq!(Board::<5>::full().iter_stones(), Board::<5>::iter_all());
}

#[test]
fn iter_pairs_cells_with_pegs() {
    let board = Board::<3>::start(pos(1, 1));
    let cells = board.iter();
    assert_eq!(cells.len(), 6);
    assert_eq!(cells[0], (pos(0, 0), true));
    assert_eq!(cells[4], (pos(1, 1), false));
    assert_eq!(cells[5], (pos(0, 2), true));
}

#[test]
fn from_positions_takes_cells_only() {
    assert_eq!(board5(&[(0, 0), (1, 0), (3, 0)]).count(), 3);
    assert_eq!(board5(&[(2, 2), (2, 2)]).count(), 1);
    assert_eq!(board5(&[]).count(), 0);
    assert!(Board::<5>::from_positions(&vec![pos(0, 0), pos(5, 0)]).is_none());
    assert!(Board::<5>::from_positions(&vec![pos(3, 2)]).is_none());
    let all = Board::<5>::iter_all();
    assert_eq!(Board::<5>::from_positions(&all), Some(Board::<5>::full()));
}

#[test]
fn filter_keeps_the_accepted_pegs() {
    let board = Board::<5>::full();
    let top = board.filter(|p: &Position| p.y == 0);
    assert_eq!(top, board5(&[(0, 0), (1, 0), (2, 0), (3, 0), (4, 0)]));
    assert_eq!(board.filter(|_: &Position| false).count(), 0);
    assert_eq!(board.filter(|_: &Position| true), board);
    let hole = pos(2, 1);
    assert_eq!(board.filter(|p: &Position| *p != hole), Board::<5>::start(hole));
}

#[test]
fn map_moves_each_peg() {
    let board = board5(&[(0, 0), (1, 0)]);
    assert_eq!(board.map(|p: Position| pos(p.x, p.y + 1)), Some(board5(&[(0, 1), (1, 1)])));
    assert_eq!(board.map(|p: Position| pos(p.x + 4, p.y)), None);
    assert_eq!(board.map(|_: Position| pos(2, 2)), Some(board5(&[(2, 2)])));
}

#[test]
fn filter_map_moves_and_drops() {
    let board = board5(&[(0, 0), (1, 0), (2, 0)]);
    let moved = board.filter_map(|p: Position| if p.x == 1 { None } else { Some(pos(p.x, 1)) });
    assert_eq!(moved, Some(board5(&[(0, 1), (2, 1)])));
    assert_eq!(board.filter_map(|_: Position| None), Some(board5(&[])));
    assert_eq!(board.filter_map(|p: Position| Some(pos(p.x, 4))), None);
}

#[test]
fn neighbours_follow_the_six_directions() {
    assert_eq!(
        Board::<5>::neighbours(pos(1, 1), 1),
        vec![
            Some(pos(2, 1)),
            Some(pos(1, 2)),
            Some(pos(0, 2)),
            Some(pos(0, 1)),
            Some(pos(1, 0)),
            Some(pos(2, 0))
        ]
    );
    assert_eq!(
        Board::<5>::neighbours(pos(0, 0), 2),
        vec![Some(pos(2, 0)), Some(pos(0, 2)), None, None, None, None]
    );
    assert_eq!(
        Board::<5>::neighbours(pos(255, 255), 1),
        vec![None, None, None, Some(pos(254, 255)), Some(pos(255, 254)), None]
    );
}

#[test]
fn valid_moves_from_a_peg() {
    let board = Board::<5>::start(pos(0, 0));
    assert_eq!(board.valid_moves(pos(2, 0)), Some(vec![(pos(1, 0), pos(0, 0))]));
    assert_eq!(board.valid_moves(pos(0, 2)), Some(vec![(pos(0, 1), pos(0, 0))]));
    assert_eq!(board.valid_moves(pos(1, 1)), Some(vec![]));
    assert_eq!(board.valid_moves(pos(0, 0)), None);
    assert_eq!(board.valid_moves(pos(9, 9)), None);
}

#[test]
fn valid_moves_come_in_the_order_of_the_directions() {
    let board = board5(&[(1, 1), (2, 1), (1, 2), (0, 2), (0, 1), (1, 0), (2, 0)]);
    assert_eq!(
        board.valid_moves(pos(1, 1)),
        Some(vec![(pos(2, 1), pos(3, 1)), (pos(1, 2), pos(1, 3))])
    );
    // a jump may not land outside the triangle
    let edge = board5(&[(2, 1), (3, 1), (2, 2)]);
    assert_eq!(edge.valid_moves(pos(2, 1)), Some(vec![]));
    let around = board5(&[(2, 1), (1, 1), (2, 0)]);
    assert_eq!(around.valid_moves(pos(2, 1)), Some(vec![(pos(1, 1), pos(0, 1))]));
}

#[test]
fn all_valid_moves_of_the_corner_start() {
    let board = Board::<5>::start(pos(0, 0));
    assert_eq!(
        board.all_valid_moves(),
        vec![(pos(2, 0), pos(1, 0), pos(0, 0)), (pos(0, 2), pos(0, 1), pos(0, 0))]
    );
    assert_eq!(Board::<5>::full().all_valid_moves(), vec![]);
    assert_eq!(board5(&[]).all_valid_moves(), vec![]);
}

#[test]
fn valid_move_names_the_peg_jumped_over() {
    let board = Board::<5>::start(pos(0, 0));
    assert_eq!(board.valid_move(pos(2, 0), pos(0, 0)), Some(pos(1, 0)));
    assert_eq!(board.valid_move(pos(0, 2), pos(0, 0)), Some(pos(0, 1)));
    let other = Board::<5>::start(pos(1, 1));
    assert_eq!(other.valid_move(pos(3, 1), pos(1, 1)), Some(pos(2, 1)));
    assert_eq!(other.valid_move(pos(1, 3), pos(1, 1)), Some(pos(1, 2)));
    assert_eq!(other.valid_move(pos(3, 0), pos(1, 1)), None);
}

#[test]
fn valid_move_is_none_for_what_is_no_jump() {
    let board = Board::<5>::start(pos(0, 0));
    // the landing cell holds a peg
    assert_eq!(board.valid_move(pos(2, 0), pos(4, 0)), None);
    // the starting cell is empty
    assert_eq!(board.valid_move(pos(0, 0), pos(2, 0)), None);
    // not two steps away
    assert_eq!(board.valid_move(pos(1, 0), pos(0, 0)), None);
    assert_eq!(board.valid_move(pos(3, 0), pos(0, 0)), None);
    assert_eq!(board.valid_move(pos(1, 1), pos(0, 0)), None);
    assert_eq!(board.valid_move(pos(2, 0), pos(2, 0)), None);
    // outside the triangle
    assert_eq!(board.valid_move(pos(5, 0), pos(3, 0)), None);
    assert_eq!(board.valid_move(pos(2, 0), pos(0, 9)), None);
    // nothing to jump over
    let sparse = board5(&[(2, 0)]);
    assert_eq!(sparse.valid_move(pos(2, 0), pos(0, 0)), None);
    assert_eq!(sparse.valid_move(pos(2, 0), pos(4, 0)), None);
}

#[test]
fn apply_move_on_the_triangle_of_three() {
    let board = Board::<3>::start(pos(0, 0));
    assert_eq!(board.count(), 5);
    assert_eq!(board.row(0), Some(BitSet::new(0b110)));
    assert_eq!(board.row(1), Some(BitSet::new(0b11)));
    assert_eq!(board.row(2), Some(BitSet::new(0b1)));
    assert_eq!(
        board.all_valid_moves(),
        vec![(pos(2, 0), pos(1, 0), pos(0, 0)), (pos(0, 2), pos(0, 1), pos(0, 0))]
    );
    let after = board.apply_move(pos(2, 0), pos(0, 0)).expect("a legal jump");
    assert_eq!(after.count(), 4);
    assert_eq!(after.row(0), Some(BitSet::new(0b001)));
    assert_eq!(after.row(1), Some(BitSet::new(0b11)));
    assert_eq!(after.row(2), Some(BitSet::new(0b1)));
    let down = board.apply_move(pos(0, 2), pos(0, 0)).expect("a legal jump");
    assert_eq!(down.row(0), Some(BitSet::new(0b111)));
    assert_eq!(down.row(1), Some(BitSet::new(0b10)));
    assert_eq!(down.row(2), Some(BitSet::new(0b0)));
}

#[test]
fn apply_move_changes_three_cells() {
    let board = Board::<5>::start(pos(1, 1));
    let after = board.apply_move(pos(3, 1), pos(1, 1)).expect("a legal jump");
    assert_eq!(after.count(), board.count() - 1);
    for p in Board::<5>::iter_all() {
        let expected = if p == pos(3, 1) || p == pos(2, 1) {
            Some(false)
        } else if p == pos(1, 1) {
            Some(true)
        } else {
            board.at(p)
        };
        assert_eq!(after.at(p), expected);
    }
    assert_eq!(board.at(pos(3, 1)), Some(true));
}

#[test]
fn apply_move_refuses_what_is_no_jump() {
    let board = Board::<5>::start(pos(0, 0));
    assert_eq!(board.apply_move(pos(2, 0), pos(4, 0)), None);
    assert_eq!(board.apply_move(pos(0, 0), pos(2, 0)), None);
    assert_eq!(board.apply_move(pos(1, 0), pos(0, 0)), None);
    assert_eq!(board.apply_move(pos(7, 7), pos(0, 0)), None);
    assert_eq!(Board::<5>::full().apply_move(pos(2, 0), pos(0, 0)), None);
}

#[test]
fn every_listed_move_can_be_applied() {
    let mut board = Board::<5>::start(pos(2, 1));
    for _ in 0..6 {
        let moves = board.all_valid_moves();
        if moves.is_empty() {
            break;
        }
        for &(from, over, to) in &moves {
            assert_eq!(board.valid_move(from, to), Some(over));
            let next = board.apply_move(from, to).expect("a listed jump");
            assert_eq!(next.count(), board.count() - 1);
        }
        let (from, _, to) = moves[moves.len() - 1];
        board = board.apply_move(from, to).unwrap();
    }
}

#[test]
fn flip_mirrors_each_row() {
    assert_eq!(Board::<5>::start(pos(0, 0)).flip(), Board::<5>::start(pos(4, 0)));
    assert_eq!(Board::<5>::start(pos(1, 1)).flip(), Board::<5>::start(pos(2, 1)));
    assert_eq!(board5(&[(0, 0), (1, 0), (3, 0)]).flip(), board5(&[(1, 0), (3, 0), (4, 0)]));
    assert_eq!(Board::<5>::full().flip(), Board::<5>::full());
    assert_eq!(board5(&[(0, 4)]).flip(), board5(&[(0, 4)]));
    assert_eq!(Board::<8>::start(pos(7, 0)).flip(), Board::<8>::start(pos(0, 0)));
}

#[test]
fn rotations_turn_the_triangle() {
    let board = board5(&[(0, 0), (1, 0), (3, 0)]);
    assert_eq!(board.rotate_right(), board5(&[(0, 1), (0, 3), (0, 4)]));
    assert_eq!(board.rotate_left(), board5(&[(4, 0), (3, 1), (1, 3)]));
    assert_eq!(board.rotate_right_flip(), board5(&[(3, 1), (1, 3), (0, 4)]));
    assert_eq!(board.rotate_left_flip(), board5(&[(0, 0), (0, 1), (0, 3)]));
    assert_eq!(Board::<5>::start(pos(0, 0)).rotate_right(), Board::<5>::start(pos(0, 4)));
    assert_eq!(Board::<5>::start(pos(0, 0)).rotate_left(), Board::<5>::start(pos(4, 0)));
}

#[test]
fn symmetries_undo_each_other() {
    let board = board5(&[(0, 0), (1, 0), (3, 0), (2, 1), (0, 3)]);
    assert_eq!(board.flip().flip(), board);
    assert_eq!(board.rotate_right().rotate_left(), board);
    assert_eq!(board.rotate_left().rotate_right(), board);
    assert_eq!(board.rotate_right().rotate_right(), board.rotate_left());
    assert_eq!(board.rotate_right().rotate_right().rotate_right(), board);
    assert_eq!(board.rotate_right_flip().rotate_right_flip(), board);
    assert_eq!(board.rotate_left_flip().rotate_left_flip(), board);
    assert_eq!(board.flip().rotate_right(), board.rotate_left().flip());
}

#[test]
fn all_variants_lists_the_six_symmetries() {
    let board = board5(&[(0, 0), (1, 0), (3, 0)]);
    let variants = board.all_variants();
    assert_eq!(
        variants,
        vec![
            board,
            board.flip(),
            board.rotate_right(),
            board.rotate_left(),
            board.rotate_right().flip(),
            board.rotate_left().flip()
        ]
    );
    assert_eq!(variants[4], board.rotate_right_flip());
    assert_eq!(variants[5], board.rotate_left_flip());
}

#[test]
fn canonicalize_picks_the_least_pattern() {
    assert_eq!(Board::<5>::start(pos(0, 0)).canonicalize(), Board::<5>::start(pos(0, 4)));
    assert_eq!(Board::<5>::start(pos(4, 0)).canonicalize(), Board::<5>::start(pos(0, 4)));
    assert_eq!(Board::<5>::start(pos(0, 4)).canonicalize(), Board::<5>::start(pos(0, 4)));
    assert_eq!(Board::<5>::start(pos(1, 1)).canonicalize(), Board::<5>::start(pos(1, 2)));
    assert_eq!(board5(&[(0, 4)]).canonicalize(), board5(&[(0, 0)]));
    assert_eq!(Board::<5>::full().canonicalize(), Board::<5>::full());
}

#[test]
fn canonicalize_is_the_same_for_every_variant() {
    let boards = vec![
        board5(&[(0, 0), (1, 0), (3, 0)]),
        board5(&[(2, 1), (0, 3), (1, 3), (4, 0)]),
        Board::<5>::start(pos(2, 0)),
        board5(&[]),
    ];
    for board in boards {
        let canonical = board.canonicalize();
        assert_eq!(canonical.canonicalize(), canonical);
        for variant in board.all_variants() {
            assert_eq!(variant.canonicalize(), canonical);
        }
        assert_eq!(board.flip().canonicalize(), canonical);
        assert_eq!(canonical.count(), board.count());
    }
}

#[test]
fn symmetry_names_are_distinct() {
    assert_ne!(Symmetry::Flip, Symmetry::Identity);
    assert_ne!(Symmetry::RotateRight, Symmetry::RotateLeft);
    assert_ne!(Symmetry::RotateRightFlip, Symmetry::RotateLeftFlip);
}

#[test]
fn boards_are_equal_by_their_pegs() {
    assert_eq!(board5(&[(1, 0), (0, 0)]), board5(&[(0, 0), (1, 0)]));
    assert_ne!(board5(&[(1, 0)]), board5(&[(0, 1)]));
    let copy = Board::<5>::full();
    let same = copy;
    assert_eq!(copy, same);
}

#[test]
fn positions_turn_into_pairs() {
    let wide: (u16, u32) = pos(3, 4).into();
    assert_eq!(wide, (3u16, 4u32));
    let same: (u8, u8) = pos(255, 0).into();
    assert_eq!(same, (255, 0));
    let big: (u64, usize) = <(u64, usize)>::from(pos(7, 9));
    assert_eq!(big, (7, 9));
}

#[test]
fn pairs_turn_into_positions_where_they_fit() {
    assert_eq!(Position::try_from((3u16, 4u16)), Ok(pos(3, 4)));
    assert_eq!(Position::try_from((255u32, 0u64)), Ok(pos(255, 0)));
    assert!(Position::try_from((256u16, 0u16)).is_err());
    assert!(Position::try_from((0u16, 1000u16)).is_err());
    assert!(Position::try_from((-1i32, 2i32)).is_err());
    assert_eq!(Position::try_from((3i32, 2i64)), Ok(pos(3, 2)));
}

#[test]
fn transforms_ask_once_about_each_peg_in_order() {
    let board = board5(&[(1, 0), (0, 1), (3, 0)]);
    let mut asked: Vec<Position> = Vec::new();
    let kept = board.filter(|p: &Position| {
        asked.push(*p);
        p.y == 0
    });
    assert_eq!(asked, vec![pos(1, 0), pos(3, 0), pos(0, 1)]);
    assert_eq!(kept, board5(&[(1, 0), (3, 0)]));
    let mut count = 0;
    let moved = board.map(|p: Position| {
        count += 1;
        pos(p.x, p.y + 1)
    });
    assert_eq!(count, 3);
    assert_eq!(moved, Some(board5(&[(1, 1), (0, 2), (3, 1)])));
    let mut seen = 0;
    let some = board.filter_map(|p: Position| {
        seen += 1;
        if seen == 2 { None } else { Some(p) }
    });
    assert_eq!(some, Some(board5(&[(1, 0), (0, 1)])));
}
