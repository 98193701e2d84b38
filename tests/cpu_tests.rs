use bit_othello::board::{Board, Choice, JudgeResult, Player};
use bit_othello::cpu::{
    cross_cpu, eval_cpu, mask_cross, mutate_cpu, random_cross, two_point_cross,
    two_point_cross_at, CPU, NO_MOVE_SCORE, UNBOUNDED, WIN_SCORE,
};
use rand::rngs::StdRng;
use rand::SeedableRng;

fn uniform(table: [i8; 11]) -> CPU {
    CPU { stage1: table, stage2: table, stage3: table, stage4: table }
}

fn counting() -> CPU {
    uniform([0, 1, 2, 3, 4, 5, 6, 7, 8, 9, 10])
}

#[test]
fn alpha_genome_tables() {
    let cpu = CPU::new_alpha();
    let table = [120, -12, -15, 0, -3, 0, -1, -3, -1, -1, 0];
    assert_eq!(cpu, uniform(table));
}

#[test]
fn eval_opening_with_class_weights() {
    // The four centre cells are all of class 9 and cancel out; four legal
    // moves at mobility weight 10 give 40.
    assert_eq!(counting().eval_board(&Board::new()), 40);
}

#[test]
fn eval_counts_classes() {
    // A mover disc on each corner (class 0) and on (1, 2) (class 4), an
    // opponent disc on (0, 3) (class 6).
    let mut w = [0i8; 11];
    w[0] = 5;
    w[4] = 7;
    w[6] = 11;
    let cpu = uniform(w);
    let mover = Board::coordinate_to_bit((0, 0))
        | Board::coordinate_to_bit((0, 7))
        | Board::coordinate_to_bit((7, 0))
        | Board::coordinate_to_bit((7, 7))
        | Board::coordinate_to_bit((1, 2));
    let opponent = Board::coordinate_to_bit((0, 3));
    let board = Board { turn: 3, player: Player::Black, player_board: mover, opponent_board: opponent };
    assert_eq!(cpu.eval_board(&board), 4 * 5 + 7 - 11);
}

#[test]
fn eval_uses_phase_tables() {
    let mut cpu = uniform([0; 11]);
    cpu.stage1[10] = 1;
    cpu.stage2[10] = 2;
    cpu.stage3[10] = 3;
    cpu.stage4[10] = 4;
    let mut board = Board::new();
    for (turn, expected) in [(14, 4), (15, 8), (29, 8), (30, 12), (44, 12), (45, 16)].iter() {
        board.turn = *turn;
        assert_eq!(cpu.eval_board(&board), *expected);
    }
}

#[test]
fn zero_genome_scores_by_mobility_only() {
    let zero = uniform([0; 11]);
    let mut mobility = [0i8; 11];
    mobility[10] = 3;
    let mobility = uniform(mobility);
    let mut board = Board::new();
    let moves = [(2, 3), (2, 2), (2, 1), (1, 1)];
    for &(row, col) in moves.iter() {
        assert_eq!(zero.eval_board(&board), 0);
        let count = board.make_legal_board().count_ones() as i64;
        assert_eq!(mobility.eval_board(&board), 3 * count);
        board.update(Choice::Coordinate((row, col))).unwrap();
    }
}

#[test]
fn depth_one_search_matches_children() {
    let cpus = [counting(), CPU::new_alpha(), uniform([3, -2, 1, 0, 4, -5, 2, 1, -1, 6, 2])];
    let mut board = Board::new();
    board.update(Choice::Coordinate((2, 3))).unwrap();
    for cpu in cpus.iter() {
        let legal = board.make_legal_board();
        let mut best = -NO_MOVE_SCORE;
        for k in 0..64 {
            if legal & (1u64 << (63 - k)) != 0 {
                let mut child = board;
                let result = child.update(Choice::Coordinate((k / 8, k % 8))).unwrap();
                assert_eq!(result, JudgeResult::Continue);
                best = best.max(-cpu.eval_board(&child));
            }
        }
        assert_eq!(cpu.eval_node(&board, 1, -UNBOUNDED), best);
        assert_eq!(cpu.eval_node(&board, 0, -UNBOUNDED), cpu.eval_board(&board));
    }
}

#[test]
fn search_scores_a_won_position() {
    // The mover wins at once by taking (0, 2).
    let board = Board {
        turn: 50,
        player: Player::White,
        player_board: Board::coordinate_to_bit((0, 0)),
        opponent_board: Board::coordinate_to_bit((0, 1)),
    };
    let cpu = counting();
    assert_eq!(cpu.eval_node(&board, 2, -UNBOUNDED), WIN_SCORE);
    assert_eq!(cpu.choose_best(&board, 2), Choice::Coordinate((0, 2)));
}

#[test]
fn choose_best_passes_when_forced() {
    let board = Board {
        turn: 20,
        player: Player::Black,
        player_board: Board::coordinate_to_bit((0, 1)),
        opponent_board: Board::coordinate_to_bit((0, 0)),
    };
    assert!(board.is_skip());
    assert_eq!(counting().choose_best(&board, 3), Choice::Skip);
}

#[test]
fn choose_best_picks_a_legal_opening_move() {
    let board = Board::new();
    for depth in 1..4 {
        match CPU::new_alpha().choose_best(&board, depth) {
            Choice::Coordinate(co) => assert!(board.is_possible(Board::coordinate_to_bit(co))),
            Choice::Skip => panic!("no move chosen"),
        }
    }
}

#[test]
fn contest_plays_to_the_end() {
    let black = CPU::new_alpha();
    let white = counting();
    let (winner, b, w) = eval_cpu(&black, &white, 1);
    assert!(b + w <= 64);
    if w > b {
        assert_eq!(*winner, white);
    } else {
        assert_eq!(*winner, black);
    }
    let again = eval_cpu(&black, &white, 1);
    assert_eq!((again.1, again.2), (b, w));
}

#[test]
fn two_point_splice_is_exact() {
    let left = uniform([0; 11]);
    let right = counting();
    let child = two_point_cross_at(&left, &right, 3, 7);
    assert_eq!(child, uniform([0, 0, 0, 3, 4, 5, 6, 0, 0, 0, 0]));
    assert_eq!(two_point_cross_at(&left, &right, 4, 4), left);
    assert_eq!(two_point_cross_at(&left, &right, 0, 11), right);
}

#[test]
fn mask_splice_is_exact() {
    let left = uniform([0; 11]);
    let right = counting();
    let child = mask_cross(&left, &right, 0b101 | (1 << 11) | (1 << 43));
    assert_eq!(child.stage1, [0, 0, 2, 0, 0, 0, 0, 0, 0, 0, 0]);
    assert_eq!(child.stage2, [0; 11]);
    assert_eq!(child.stage3, [0; 11]);
    assert_eq!(child.stage4, [0, 0, 0, 0, 0, 0, 0, 0, 0, 0, 10]);
}

#[test]
fn random_splices_take_each_gene_from_a_parent() {
    let mut rng = StdRng::seed_from_u64(11);
    let left = uniform([-1; 11]);
    let right = counting();
    for _ in 0..20 {
        for child in [two_point_cross(&left, &right, &mut rng), random_cross(&left, &right, &mut rng)].iter() {
            for (s, table) in [child.stage1, child.stage2, child.stage3, child.stage4].iter().enumerate() {
                for k in 0..11 {
                    assert!(table[k] == -1 || table[k] == k as i8, "stage {} gene {}", s, k);
                }
            }
        }
    }
}

#[test]
fn crossover_rates() {
    let mut rng = StdRng::seed_from_u64(5);
    let left = uniform([-1; 11]);
    let right = counting();
    for _ in 0..10 {
        assert_eq!(cross_cpu(&left, &right, 0, &mut rng), left);
    }
}

#[test]
fn mutation_rates() {
    let mut rng = StdRng::seed_from_u64(9);
    let mut cpu = counting();
    mutate_cpu(&mut cpu, 0, &mut rng);
    assert_eq!(cpu, counting());
    mutate_cpu(&mut cpu, 1_000_000, &mut rng);
    assert_ne!(cpu, counting());
}

#[test]
fn shift_wraps_around() {
    let mut cpu = uniform([127, -128, 0, 1, 2, 3, 4, 5, 6, 7, 8]);
    cpu.shift_by(&uniform([1, -1, 5, 0, 0, 0, 0, 0, 0, 0, 0]));
    assert_eq!(cpu, uniform([-128, 127, 5, 1, 2, 3, 4, 5, 6, 7, 8]));
}

#[test]
fn random_genomes_follow_the_seed() {
    let a = CPU::new_random(&mut StdRng::seed_from_u64(3));
    let b = CPU::new_random(&mut StdRng::seed_from_u64(3));
    assert_eq!(a, b);
}

/// Negamax over the same move order with no cut-offs.
fn plain_negamax(cpu: &CPU, board: &Board, depth: usize) -> i64 {
    if depth == 0 {
        return cpu.eval_board(board);
    }
    if board.is_skip() {
        let mut passed = *board;
        passed.update(Choice::Skip).unwrap();
        return -plain_negamax(cpu, &passed, depth - 1);
    }
    let legal = board.make_legal_board();
    let mut best = -NO_MOVE_SCORE;
    for k in 0..64 {
        if legal & (1u64 << (63 - k)) != 0 {
            let mut child = *board;
            let score = match child.update(Choice::Coordinate((k / 8, k % 8))).unwrap() {
                JudgeResult::Draw => 0,
                JudgeResult::Win(w) if w == board.player => return WIN_SCORE,
                JudgeResult::Win(_) => -WIN_SCORE,
                JudgeResult::Continue => -plain_negamax(cpu, &child, depth - 1),
            };
            best = best.max(score);
        }
    }
    best
}

#[test]
fn alpha_beta_matches_plain_negamax() {
    let cpus = [CPU::new_alpha(), counting(), uniform([3, -2, 1, 0, 4, -5, 2, 1, -1, 6, 2])];
    let mut board = Board::new();
    let moves = [(2, 3), (2, 2), (2, 1), (1, 1)];
    for &(row, col) in moves.iter() {
        for cpu in cpus.iter() {
            for depth in 1..4 {
                assert_eq!(cpu.eval_node(&board, depth, -UNBOUNDED), plain_negamax(cpu, &board, depth));
            }
        }
        board.update(Choice::Coordinate((row, col))).unwrap();
    }
}

#[test]
fn genome_layout_from_draws() {
    let mut draws = [0i8; 44];
    for (n, d) in draws.iter_mut().enumerate() {
        *d = n as i8;
    }
    let cpu = bit_othello::cpu::genome_from_draws(&draws);
    for i in 0..11 {
        assert_eq!(cpu.stage1[i], (4 * i) as i8);
        assert_eq!(cpu.stage2[i], (4 * i + 1) as i8);
        assert_eq!(cpu.stage3[i], (4 * i + 2) as i8);
        assert_eq!(cpu.stage4[i], (4 * i + 3) as i8);
    }
}

#[test]
fn crossover_follows_its_draw() {
    let left = uniform([0; 11]);
    let right = counting();
    assert_eq!(bit_othello::cpu::cross_with(&left, &right, 500_000, 500_000, 2, 5), left);
    assert_eq!(
        bit_othello::cpu::cross_with(&left, &right, 500_000, 499_999, 2, 5),
        uniform([0, 0, 2, 3, 4, 0, 0, 0, 0, 0, 0])
    );
    let mut rng = StdRng::seed_from_u64(6);
    let always = cross_cpu(&left, &right, 1_000_000, &mut rng);
    assert!((0..11).all(|k| always.stage1[k] == 0 || always.stage1[k] == k as i8));
}

#[test]
fn mutation_follows_its_draw() {
    let delta = uniform([1, 1, 1, 1, 1, 1, 1, 1, 1, 1, 127]);
    let mut cpu = counting();
    bit_othello::cpu::mutate_with(&mut cpu, 25_000, 25_000, &delta);
    assert_eq!(cpu, counting());
    bit_othello::cpu::mutate_with(&mut cpu, 25_000, 24_999, &delta);
    assert_eq!(cpu, uniform([1, 2, 3, 4, 5, 6, 7, 8, 9, 10, -119]));
}
