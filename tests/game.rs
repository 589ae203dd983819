use threes::board::Board;
use threes::grid::Direction;
use threes::{calculate_coefficient, generate_basic_stack, generate_bonus_stack, handle_collisions};

fn board_with(state: [[u32; 4]; 4], high_card: u32, next_card: u32) -> Board {
    Board {
        state: state,
        high_card: high_card,
        next_card: next_card,
        basic_cards: vec![],
        bonus_cards: vec![],
    }
}

fn count_empty(state: &[[u32; 4]; 4]) -> usize {
    state.iter().flatten().filter(|v| **v == 0).count()
}

#[test]
fn test_new_board_has_moves() {
    let board = Board::new();
    assert_eq!(true, board.has_moves());
}

#[test]
fn test_half_played_has_moves() {
    let state: [[u32; 4]; 4] = [
        [192, 384, 1, 2],
        [6, 3, 1, 3],
        [192, 3, 1, 12],
        [6, 12, 24, 6],
    ];
    let board = Board {
        state: state,
        high_card: 384,
        next_card: 3,
        basic_cards: vec![],
        bonus_cards: vec![],
    };
    assert_eq!(true, board.has_moves());
}

#[test]
fn test_full_board_no_moves() {
    let state: [[u32; 4]; 4] = [
        [192, 384, 1, 1],
        [6, 3, 1, 3],
        [192, 48, 1, 12],
        [6, 12, 24, 6],
    ];
    let board = Board {
        state: state,
        high_card: 384,
        next_card: 3,
        basic_cards: vec![],
        bonus_cards: vec![],
    };
    assert_eq!(false, board.has_moves());
}

#[test]
fn test_calculate_score_zero() {
    let state: [[u32; 4]; 4] = [[1, 2, 1, 1], [2, 2, 1, 1], [2, 2, 1, 2], [2, 1, 2, 1]];
    let board = Board {
        state: state,
        high_card: 2,
        next_card: 3,
        basic_cards: vec![],
        bonus_cards: vec![],
    };
    assert_eq!(0, board.calculate_score());
}

#[test]
fn test_calculate_score_low() {
    let state: [[u32; 4]; 4] = [[3, 6, 3, 2], [2, 3, 6, 3], [3, 12, 1, 6], [12, 48, 6, 3]];
    let board = Board {
        state: state,
        high_card: 384,
        next_card: 3,
        basic_cards: vec![],
        bonus_cards: vec![],
    };
    assert_eq!(351, board.calculate_score());
}

#[test]
fn test_calculate_score_mid() {
    let state: [[u32; 4]; 4] = [
        [1, 3, 48, 1],
        [6, 2, 12, 24],
        [3, 6, 24, 2],
        [768, 384, 96, 3],
    ];
    let board = Board {
        state: state,
        high_card: 384,
        next_card: 3,
        basic_cards: vec![],
        bonus_cards: vec![],
    };
    assert_eq!(27432, board.calculate_score());
}

#[test]
fn test_calculate_score_high() {
    let state: [[u32; 4]; 4] = [
        [2, 3, 96, 3],
        [12, 6, 48, 2],
        [6, 48, 24, 6],
        [1536, 768, 384, 192],
    ];
    let board = Board {
        state: state,
        high_card: 1536,
        next_card: 3,
        basic_cards: vec![],
        bonus_cards: vec![],
    };
    assert_eq!(88836, board.calculate_score());
}

#[test]
fn test_collision_x_zero() {
    let (x, y) = (0, 3);
    let result = handle_collisions(x, y);
    assert_eq!(result, Some(y));
}

#[test]
fn test_collision_one_two() {
    let (x, y) = (1, 2);
    assert_eq!(handle_collisions(x, y), Some(3));
    assert_eq!(handle_collisions(y, x), Some(3));
}

#[test]
fn test_collision_of_like_values() {
    assert_eq!(handle_collisions(3, 3), Some(6));
    assert_eq!(handle_collisions(6, 6), Some(12));
    assert_eq!(handle_collisions(12, 12), Some(24));
    assert_eq!(handle_collisions(24, 24), Some(48));
    assert_eq!(handle_collisions(48, 48), Some(96));
    assert_eq!(handle_collisions(96, 96), Some(192));
    assert_eq!(handle_collisions(192, 192), Some(384));
}

#[test]
fn test_collision_fails() {
    assert_eq!(handle_collisions(1, 1), None);
    assert_eq!(handle_collisions(2, 2), None);
    assert_eq!(handle_collisions(3, 1), None);
    assert_eq!(handle_collisions(3, 2), None);
    assert_eq!(handle_collisions(1, 3), None);
    assert_eq!(handle_collisions(2, 3), None);
}

#[test]
fn test_basic_stack() {
    let mut stack = generate_basic_stack();
    assert_eq!(12, stack.len());
    stack.sort();
    assert_eq!(stack[0], 1);
    assert_eq!(stack[4], 2);
    assert_eq!(stack[8], 3);
}

#[test]
fn test_bonus_stack_empty() {
    let stack = generate_bonus_stack(24);
    assert_eq!(0, stack.len());
}

#[test]
fn test_bonus_stack_96() {
    let mut stack = generate_bonus_stack(96);
    assert_eq!(2, stack.len());
    stack.sort();
    assert_eq!(stack[0], 6);
    assert_eq!(stack[1], 12);
}

#[test]
fn test_bonus_stack_192() {
    let mut stack = generate_bonus_stack(192);
    assert_eq!(3, stack.len());
    stack.sort();
    assert_eq!(stack[0], 6);
    assert_eq!(stack[1], 12);
    assert_eq!(stack[2], 24);
}

#[test]
fn test_bonus_stack_384() {
    let mut stack = generate_bonus_stack(384);
    assert_eq!(4, stack.len());
    stack.sort();
    assert_eq!(stack[0], 6);
    assert_eq!(stack[1], 12);
    assert_eq!(stack[2], 24);
    assert_eq!(stack[3], 48);
}

#[test]
fn collision_with_empty_source_and_destination_counts_as_moved() {
    assert_eq!(handle_collisions(0, 0), Some(0));
    assert_eq!(handle_collisions(5, 0), None);
}

#[test]
fn collision_whose_double_overflows_does_not_merge() {
    let big: u32 = 3 << 30;
    assert_eq!(handle_collisions(big, big), None);
    let largest: u32 = 3 << 29;
    assert_eq!(handle_collisions(largest, largest), Some(3 << 30));
}

#[test]
fn coefficient_values() {
    assert_eq!(calculate_coefficient(1), 1);
    assert_eq!(calculate_coefficient(3), 1);
    assert_eq!(calculate_coefficient(6), 2);
    assert_eq!(calculate_coefficient(12), 3);
    assert_eq!(calculate_coefficient(1536), 10);
    assert_eq!(calculate_coefficient(u32::MAX), 31);
}

#[test]
fn empty_cells_score_nothing() {
    let board = board_with([[0, 0, 0, 0], [0, 3, 0, 0], [0, 0, 6, 0], [0, 0, 0, 0]], 6, 1);
    assert_eq!(12, board.calculate_score());
}

#[test]
fn basic_stack_composition_is_four_of_each() {
    let stack = generate_basic_stack();
    for v in 1..=3u32 {
        assert_eq!(4, stack.iter().filter(|x| **x == v).count());
    }
}

#[test]
fn basic_stacks_are_shuffled() {
    let laid_out = vec![1, 1, 1, 1, 2, 2, 2, 2, 3, 3, 3, 3];
    let mut any_different = false;
    for _ in 0..50 {
        if generate_basic_stack() != laid_out {
            any_different = true;
        }
    }
    assert!(any_different);
}

#[test]
fn new_board_places_nine_basic_tiles() {
    let board = Board::new();
    assert_eq!(7, count_empty(&board.state));
    assert!(board.state.iter().flatten().all(|v| *v <= 3));
    assert_eq!(3, board.high_card);
    assert!(board.next_card >= 1 && board.next_card <= 3);
    assert_eq!(2, board.basic_cards.len());
    assert!(board.bonus_cards.is_empty());
    let mut all: Vec<u32> = board.state.iter().flatten().copied().filter(|v| *v != 0).collect();
    all.push(board.next_card);
    all.extend(board.basic_cards.iter().copied());
    all.sort();
    assert_eq!(all, vec![1, 1, 1, 1, 2, 2, 2, 2, 3, 3, 3, 3]);
}

#[test]
fn new_boards_differ() {
    let first = Board::new().state;
    let mut any_different = false;
    for _ in 0..50 {
        if Board::new().state != first {
            any_different = true;
        }
    }
    assert!(any_different);
}

#[test]
fn has_moves_with_only_bottom_right_cell_empty() {
    let state: [[u32; 4]; 4] = [
        [192, 384, 1, 1],
        [6, 3, 1, 3],
        [192, 48, 1, 12],
        [6, 12, 24, 0],
    ];
    let board = board_with(state, 384, 3);
    assert!(board.has_moves());
    assert!(!board.can_move(Direction::Up));
    assert!(!board.can_move(Direction::Left));
    assert!(board.can_move(Direction::Down));
    assert!(board.can_move(Direction::Right));
}

#[test]
fn slide_up_resolves_pairs_from_the_top() {
    let mut board = board_with([[0, 3, 1, 6], [3, 3, 2, 12], [0, 6, 2, 6], [3, 6, 1, 12]], 12, 2);
    assert!(board.slide(Direction::Up));
    assert_eq!(
        board.state,
        [[3, 6, 3, 6], [0, 6, 2, 12], [3, 6, 1, 6], [0, 0, 0, 12]]
    );
    assert_eq!(12, board.high_card);
    assert_eq!(2, board.next_card);
}

#[test]
fn slide_right_raises_the_high_card() {
    let mut board = board_with([[0, 0, 48, 48], [1, 2, 0, 0], [3, 6, 12, 24], [0, 0, 0, 0]], 48, 1);
    assert!(board.slide(Direction::Right));
    assert_eq!(
        board.state,
        [[0, 0, 0, 96], [0, 1, 2, 0], [3, 6, 12, 24], [0, 0, 0, 0]]
    );
    assert_eq!(96, board.high_card);
}

#[test]
fn slide_down_and_left() {
    let mut down = board_with([[1, 0, 0, 0], [2, 0, 0, 0], [0, 0, 0, 0], [0, 0, 0, 0]], 3, 1);
    assert!(down.slide(Direction::Down));
    assert_eq!(down.state, [[0, 0, 0, 0], [1, 0, 0, 0], [2, 0, 0, 0], [0, 0, 0, 0]]);
    let mut left = board_with([[0, 2, 1, 3], [6, 6, 6, 6], [0, 0, 0, 0], [0, 0, 0, 0]], 6, 1);
    assert!(left.slide(Direction::Left));
    assert_eq!(left.state, [[2, 1, 3, 0], [12, 6, 6, 0], [0, 0, 0, 0], [0, 0, 0, 0]]);
    assert_eq!(12, left.high_card);
}

#[test]
fn move_without_collision_changes_nothing() {
    let state: [[u32; 4]; 4] = [
        [192, 384, 1, 1],
        [6, 3, 1, 3],
        [192, 48, 1, 12],
        [6, 12, 24, 6],
    ];
    let mut board = board_with(state, 384, 3);
    board.basic_cards = vec![1, 2];
    board.bonus_cards = vec![6];
    assert!(!board.move_up());
    assert!(!board.move_down());
    assert!(!board.move_left());
    assert!(!board.move_right());
    assert_eq!(state, board.state);
    assert_eq!(384, board.high_card);
    assert_eq!(3, board.next_card);
    assert_eq!(vec![1, 2], board.basic_cards);
    assert_eq!(vec![6], board.bonus_cards);
}

#[test]
fn successful_move_places_next_card_on_trailing_edge() {
    let start: [[u32; 4]; 4] = [[3, 6, 1, 0], [3, 3, 2, 3], [6, 24, 3, 6], [12, 48, 6, 12]];
    for d in [Direction::Up, Direction::Down, Direction::Left, Direction::Right] {
        let mut board = board_with(start, 48, 2);
        board.basic_cards = vec![3, 1];
        let mut slid = board_with(start, 48, 2);
        assert!(slid.slide(d));
        let moved = board.make_move(d);
        assert!(moved);
        let mut changed = vec![];
        for r in 0..4 {
            for c in 0..4 {
                if board.state[r][c] != slid.state[r][c] {
                    changed.push((r, c));
                }
            }
        }
        assert_eq!(1, changed.len());
        let (r, c) = changed[0];
        assert_eq!(0, slid.state[r][c]);
        assert_eq!(2, board.state[r][c]);
        let on_edge = match d {
            Direction::Up => r == 3,
            Direction::Down => r == 0,
            Direction::Left => c == 3,
            Direction::Right => c == 0,
        };
        assert!(on_edge);
        assert_eq!(count_empty(&slid.state), count_empty(&board.state) + 1);
        assert_ne!(0, board.next_card);
        assert_eq!(slid.high_card, board.high_card);
    }
}

#[test]
fn draw_takes_the_last_basic_card() {
    let mut board = board_with([[3, 0, 0, 0]; 4], 3, 2);
    board.basic_cards = vec![3, 1, 2];
    board.draw_next_card(0);
    assert_eq!(2, board.next_card);
    assert_eq!(vec![3, 1], board.basic_cards);
}

#[test]
fn draw_refills_an_empty_basic_supply() {
    let mut board = board_with([[3, 0, 0, 0]; 4], 3, 2);
    board.draw_next_card(7);
    assert_eq!(11, board.basic_cards.len());
    let mut all = board.basic_cards.clone();
    all.push(board.next_card);
    all.sort();
    assert_eq!(all, vec![1, 1, 1, 1, 2, 2, 2, 2, 3, 3, 3, 3]);
    assert!(board.bonus_cards.is_empty());
}

#[test]
fn bonus_draw_from_high_card() {
    let mut board = board_with([[384, 0, 0, 0]; 4], 384, 2);
    board.basic_cards = vec![1];
    board.draw_next_card(7);
    let mut all = board.bonus_cards.clone();
    all.push(board.next_card);
    all.sort();
    assert_eq!(all, vec![6, 12, 24, 48]);
    assert_eq!(vec![1], board.basic_cards);
}

#[test]
fn no_bonus_draw_below_forty_eight() {
    let mut board = board_with([[24, 0, 0, 0]; 4], 24, 2);
    board.basic_cards = vec![2, 3];
    board.draw_next_card(7);
    assert_eq!(3, board.next_card);
    assert_eq!(vec![2], board.basic_cards);
    assert!(board.bonus_cards.is_empty());
}

#[test]
fn other_rolls_draw_basic_cards() {
    let mut board = board_with([[384, 0, 0, 0]; 4], 384, 2);
    board.basic_cards = vec![2, 1];
    board.draw_next_card(3);
    assert_eq!(1, board.next_card);
    assert!(board.bonus_cards.is_empty());
}

#[test]
fn accessors_read_the_board() {
    let state: [[u32; 4]; 4] = [[1, 2, 3, 6], [0, 0, 0, 0], [0, 0, 0, 12], [0, 0, 0, 0]];
    let board = board_with(state, 12, 3);
    assert_eq!(board.get_board(), &state[..]);
    assert_eq!(3, board.get_next_card());
}
