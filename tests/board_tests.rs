use bit_othello::board::{Board, Choice, JudgeResult, MoveError, Player};

#[test]
fn coordinate_to_bit_test() {
    let mask = Board::coordinate_to_bit((0, 0));

    assert_eq!(
        0b_10000000_00000000_00000000_00000000_00000000_00000000_00000000_00000000,
        mask
    );

    let mask = Board::coordinate_to_bit((5, 4));
    assert_eq!(
        0b_00000000_00000000_00000000_00000000_00000000_00001000_00000000_00000000,
        mask
    );
}

#[test]
fn cell_bits_are_distinct_single_bits() {
    let mut seen: Vec<u64> = Vec::new();
    for row in 0..8 {
        for col in 0..8 {
            let bit = Board::coordinate_to_bit((row, col));
            assert_eq!(bit, 1u64 << (63 - row * 8 - col));
            assert_eq!(bit.count_ones(), 1);
            assert!(!seen.contains(&bit));
            seen.push(bit);
        }
    }
    assert_eq!(seen.len(), 64);
}

#[test]
fn opening_legal_moves() {
    let board = Board::new();
    assert_eq!(board.make_legal_board(), 0x0000102004080000);
    assert_eq!(board.turn, 1);
    assert_eq!(board.player, Player::Black);
    assert!(board.is_possible(Board::coordinate_to_bit((2, 3))));
    assert!(!board.is_possible(Board::coordinate_to_bit((0, 0))));
}

#[test]
fn opening_move_flips_one_disc() {
    let mut board = Board::new();
    assert_eq!(board.calc_now_score(), (2, 2));
    let result = board.update(Choice::Coordinate((2, 3)));
    assert_eq!(result, Ok(JudgeResult::Continue));
    // Black has moved: its discs are now the opponent's side of the board.
    assert_eq!(board.player, Player::White);
    assert_eq!(board.turn, 2);
    assert_eq!(board.calc_now_score(), (1, 4));
    assert_eq!(board.opponent_board, 0x0000101810000000);
    assert_eq!(board.player_board, 0x0000000008000000);
}

#[test]
fn disc_counts_after_moves() {
    let mut board = Board::new();
    let moves = [(2, 3), (2, 2), (2, 1), (1, 1)];
    for &(row, col) in moves.iter() {
        let (mover, other) = board.calc_now_score();
        let before_opp = board.opponent_board;
        board.update(Choice::Coordinate((row, col))).unwrap();
        let (new_mover, new_other) = board.calc_now_score();
        let flipped = (before_opp & !board.player_board).count_ones();
        assert_eq!(new_other, mover + 1 + flipped);
        assert_eq!(new_mover + flipped, other);
        assert_eq!(new_mover + new_other, mover + other + 1);
        assert_eq!(board.player_board & board.opponent_board, 0);
    }
}

#[test]
fn update_rejects_bad_moves() {
    let mut board = Board::new();
    let start = board;
    assert_eq!(board.update(Choice::Coordinate((8, 0))), Err(MoveError::OutOfIndex));
    assert_eq!(board.update(Choice::Coordinate((3, 9))), Err(MoveError::OutOfIndex));
    assert_eq!(board, start);
    assert_eq!(board.update(Choice::Coordinate((0, 0))), Err(MoveError::Impossible));
    assert_eq!(board.update(Choice::Coordinate((3, 3))), Err(MoveError::Impossible));
    assert_eq!(board, start);
}

#[test]
fn skip_swaps_sides() {
    let mut board = Board::new();
    assert_eq!(board.update(Choice::Skip), Ok(JudgeResult::Continue));
    assert_eq!(board.turn, 2);
    assert_eq!(board.player, Player::White);
    assert_eq!(board.player_board, 0x0000001008000000);
    assert_eq!(board.opponent_board, 0x0000000810000000);
}

fn board_of(mover: u64, opponent: u64) -> Board {
    Board { turn: 10, player: Player::Black, player_board: mover, opponent_board: opponent }
}

#[test]
fn skip_and_finish_combinations() {
    let a1 = Board::coordinate_to_bit((0, 0));
    let b1 = Board::coordinate_to_bit((0, 1));
    let h8 = Board::coordinate_to_bit((7, 7));

    // Both sides can move.
    let both = Board::new();
    assert!(!both.is_skip());
    assert!(!both.is_game_finished());

    // Only the opponent can move: the mover must pass.
    let pass = board_of(b1, a1);
    assert_eq!(pass.make_legal_board(), 0);
    assert!(pass.is_skip());
    assert!(!pass.is_game_finished());

    // Only the mover can move.
    let only_mover = board_of(a1, b1);
    assert_eq!(only_mover.make_legal_board(), Board::coordinate_to_bit((0, 2)));
    assert!(!only_mover.is_skip());
    assert!(!only_mover.is_game_finished());

    // Neither can move.
    let stuck = board_of(a1, h8);
    assert!(!stuck.is_skip());
    assert!(stuck.is_game_finished());
}

#[test]
fn game_end_is_judged() {
    // Black takes the last cell between its own discs and wins.
    let a1 = Board::coordinate_to_bit((0, 0));
    let b1 = Board::coordinate_to_bit((0, 1));
    let mut board = board_of(a1, b1);
    assert_eq!(board.update(Choice::Coordinate((0, 2))), Ok(JudgeResult::Win(Player::Black)));
    assert_eq!(board.calc_now_score(), (0, 3));

    // Three discs each with no moves left: a draw.
    let mut draw = board_of(a1, b1);
    draw.opponent_board |= Board::coordinate_to_bit((7, 5))
        | Board::coordinate_to_bit((7, 6))
        | Board::coordinate_to_bit((7, 7));
    assert_eq!(draw.update(Choice::Coordinate((0, 2))), Ok(JudgeResult::Draw));
}

#[test]
fn player_next_alternates() {
    assert_eq!(Player::Black.next(), Player::White);
    assert_eq!(Player::White.next(), Player::Black);
}
