//! Genomes of weights, the static evaluator and the alpha-beta search that
//! plays with them.
use vstd::prelude::*;

use rand::rngs::StdRng;

use crate::random::{random_i8, random_range, random_u64};
use crate::bits::{count_ones, lemma_count_below_bound, popcount};
use crate::board::{cell_bit, lemma_progress, progress, Board, BitBoard, Choice, JudgeResult, Player};

verus! {

/// Weights per phase: ten cell classes and the mobility weight.
pub const WEIGHT_LEN: usize = 11;

/// A strategy: one weight table for each phase of the game (turns below 15,
/// below 30, below 45, and the rest).
///
/// The evaluator scores the mover's discs with plus the weight of their cell
/// class and the opponent's discs with minus it.
#[derive(Debug, Clone, Copy, PartialEq, Eq)]
pub struct CPU {
    pub stage1: [i8; WEIGHT_LEN],
    pub stage2: [i8; WEIGHT_LEN],
    pub stage3: [i8; WEIGHT_LEN],
    pub stage4: [i8; WEIGHT_LEN],
}

/// Folds rows and columns 4 to 7 onto 3 to 0.
pub open spec fn mirror(i: int) -> int {
    if i <= 3 {
        i
    } else {
        7 - i
    }
}

/// The class of cell `(row, col)` under the board's symmetries: with the
/// folded coordinates `hi >= lo`, the class is `hi * (hi + 1) / 2 + lo`.
pub open spec fn cell_class(row: int, col: int) -> int {
    let a = mirror(row);
    let b = mirror(col);
    let hi = if a >= b {
        a
    } else {
        b
    };
    let lo = if a >= b {
        b
    } else {
        a
    };
    hi * (hi + 1) / 2 + lo
}

/// What square `k` (row-major, `0..64`) adds to the score: its class weight
/// for a mover disc, minus it for an opponent disc.
pub open spec fn square_score(w: Seq<i8>, mover: u64, opponent: u64, k: int) -> int {
    let c = cell_class(k / 8, k % 8);
    let bit = 1u64 << ((63 - k) as u64);
    (if mover & bit != 0 {
        w[c] as int
    } else {
        0
    }) - (if opponent & bit != 0 {
        w[c] as int
    } else {
        0
    })
}

/// The positional score of squares `0..n`.
pub open spec fn material(w: Seq<i8>, mover: u64, opponent: u64, n: nat) -> int
    decreases n,
{
    if n == 0 {
        0
    } else {
        material(w, mover, opponent, (n - 1) as nat) + square_score(
            w,
            mover,
            opponent,
            n - 1,
        )
    }
}

/// The largest absolute value of a static score.
pub open spec fn eval_bound() -> int {
    24576
}

proof fn lemma_material_bound(w: Seq<i8>, mover: u64, opponent: u64, n: nat)
    requires
        w.len() == WEIGHT_LEN,
        n <= 64,
    ensures
        -256 * n <= material(w, mover, opponent, n) <= 256 * n,
    decreases n,
{
    if n > 0 {
        lemma_material_bound(w, mover, opponent, (n - 1) as nat);
        lemma_class_range((n - 1) / 8, (n - 1) % 8);
    }
}

proof fn lemma_class_range(row: int, col: int)
    requires
        0 <= row < 8,
        0 <= col < 8,
    ensures
        0 <= cell_class(row, col) < 10,
{
    let a = mirror(row);
    let b = mirror(col);
    let hi = if a >= b {
        a
    } else {
        b
    };
    assert(0 <= hi <= 3);
    assert(hi * (hi + 1) / 2 <= 6) by (nonlinear_arith)
        requires
            0 <= hi <= 3,
    ;
    assert(hi * (hi + 1) / 2 >= 0) by (nonlinear_arith)
        requires
            0 <= hi <= 3,
    ;
}

fn mirror_index(i: usize) -> (r: usize)
    requires
        i < 8,
    ensures
        r == mirror(i as int),
{
    match i {
        0..=3 => i,
        4 => 3,
        5 => 2,
        6 => 1,
        _ => 0,
    }
}

/// The class of a cell, `0..10`.
fn co_to_index(i: usize, j: usize) -> (r: usize)
    requires
        i < 8,
        j < 8,
    ensures
        r == cell_class(i as int, j as int),
        r < 10,
{
    let (a, b) = (mirror_index(i), mirror_index(j));
    let (hi, lo) = if a >= b {
        (a, b)
    } else {
        (b, a)
    };
    proof {
        lemma_class_range(i as int, j as int);
        assert(0int * 1 / 2 == 0 && 1int * 2 / 2 == 1 && 2int * 3 / 2 == 3 && 3int * 4 / 2 == 6);
    }
    match hi {
        0 => 0,
        1 => 1 + lo,
        2 => 3 + lo,
        _ => 6 + lo,
    }
}

/// The score of a won game, for the side that wins.
pub const WIN_SCORE: i64 = 1152921504606846976;

/// The score a search starts from before any move is tried.
pub const NO_MOVE_SCORE: i64 = 2305843009213693952;

/// A bound no score reaches: the search of a passed board starts from it.
pub const UNBOUNDED: i64 = 4611686018427387904;

pub open spec fn higher(a: int, b: int) -> int {
    if a >= b {
        a
    } else {
        b
    }
}

/// The move on square `k` (row-major, `0..64`).
pub open spec fn square_choice(k: int) -> Choice {
    Choice::Coordinate(((k / 8) as usize, (k % 8) as usize))
}

/// The bit of square `k`.
pub open spec fn square_bit(k: int) -> u64 {
    cell_bit(k / 8, k % 8)
}

impl CPU {
    /// The value of `b` for its mover by a negamax search of `depth` plies
    /// with alpha-beta cut-offs: `alpha` is the best score the parent node
    /// already has, seen from the parent's side.
    pub open spec fn node_value(self, b: Board, depth: nat, alpha: int) -> int
        decreases depth, 65int,
    {
        if depth == 0 {
            self.spec_eval(b)
        } else if b.spec_is_skip() {
            -self.node_value(b.passed(), (depth - 1) as nat, -UNBOUNDED)
        } else {
            self.scan_value(b, depth, alpha, 0, -NO_MOVE_SCORE)
        }
    }

    /// The search over the moves on squares `k..64`, with `best` the best
    /// score found on the squares before.
    pub open spec fn scan_value(self, b: Board, depth: nat, alpha: int, k: nat, best: int) -> int
        decreases depth, 64 - k,
    {
        if k >= 64 || depth == 0 {
            best
        } else if square_bit(k as int) & b.legal() == 0 {
            self.scan_value(b, depth, alpha, k + 1, best)
        } else {
            let c = b.placed(square_bit(k as int));
            let j = c.judged();
            if j == JudgeResult::Win(b.player) {
                WIN_SCORE as int
            } else {
                let nb = match j {
                    JudgeResult::Draw => higher(best, 0),
                    JudgeResult::Win(_) => higher(best, -WIN_SCORE),
                    JudgeResult::Continue => higher(
                        best,
                        -self.node_value(c, (depth - 1) as nat, best),
                    ),
                };
                if alpha >= -nb {
                    nb
                } else {
                    self.scan_value(b, depth, alpha, k + 1, nb)
                }
            }
        }
    }

    /// The move a search of `depth` plies picks on `b`.
    pub open spec fn best_choice(self, b: Board, depth: nat) -> Choice {
        if b.spec_is_skip() {
            Choice::Skip
        } else {
            self.choice_scan(b, depth, 0, -UNBOUNDED, Choice::Skip)
        }
    }

    /// The pick among the moves on squares `k..64`, with `best` the score of
    /// `choice`, the pick among the squares before.
    pub open spec fn choice_scan(self, b: Board, depth: nat, k: nat, best: int, choice: Choice) -> Choice
        decreases 64 - k,
    {
        if k >= 64 {
            choice
        } else if square_bit(k as int) & b.legal() == 0 {
            self.choice_scan(b, depth, k + 1, best, choice)
        } else {
            let c = b.placed(square_bit(k as int));
            let here = square_choice(k as int);
            match c.judged() {
                JudgeResult::Draw => if best < 0 {
                    self.choice_scan(b, depth, k + 1, 0, here)
                } else {
                    self.choice_scan(b, depth, k + 1, best, choice)
                },
                JudgeResult::Win(w) => if w == b.player {
                    here
                } else if best < -WIN_SCORE {
                    self.choice_scan(b, depth, k + 1, -WIN_SCORE, here)
                } else {
                    self.choice_scan(b, depth, k + 1, best, choice)
                },
                JudgeResult::Continue => {
                    let v = -self.node_value(c, (depth - 1) as nat, best);
                    if best < v {
                        self.choice_scan(b, depth, k + 1, v, here)
                    } else {
                        self.choice_scan(b, depth, k + 1, best, choice)
                    }
                },
            }
        }
    }

    /// The weight table in use on turn `turn`.
    pub open spec fn weights_for(self, turn: int) -> Seq<i8> {
        if turn < 15 {
            self.stage1@
        } else if turn < 30 {
            self.stage2@
        } else if turn < 45 {
            self.stage3@
        } else {
            self.stage4@
        }
    }

    /// The static score of `b` for its mover: the positional score plus the
    /// mobility weight times the number of legal moves.
    pub open spec fn spec_eval(self, b: Board) -> int {
        let w = self.weights_for(b.turn as int);
        material(w, b.player_board, b.opponent_board, 64) + popcount(b.legal()) * w[10] as int
    }

    /// A hand-tuned genome: the same table in every phase.
    pub fn new_alpha() -> (r: CPU)
        ensures
            r.stage1@ == seq![120i8, -12i8, -15i8, 0i8, -3i8, 0i8, -1i8, -3i8, -1i8, -1i8, 0i8],
            r.stage2@ == r.stage1@,
            r.stage3@ == r.stage1@,
            r.stage4@ == r.stage1@,
    {
        let weight: [i8; WEIGHT_LEN] = [120, -12, -15, 0, -3, 0, -1, -3, -1, -1, 0];
        let r = CPU { stage1: weight, stage2: weight, stage3: weight, stage4: weight };
        assert(r.stage1@ =~= seq![120i8, -12i8, -15i8, 0i8, -3i8, 0i8, -1i8, -3i8, -1i8, -1i8, 0i8]);
        r
    }

    /// The static score of `board` for its mover.
    pub fn eval_board(&self, board: &Board) -> (r: i64)
        ensures
            r == self.spec_eval(*board),
            -eval_bound() <= r <= eval_bound(),
    {
        let weights = if board.turn < 15 {
            self.stage1
        } else if board.turn < 30 {
            self.stage2
        } else if board.turn < 45 {
            self.stage3
        } else {
            self.stage4
        };
        let ghost w = weights@;
        assert(w == self.weights_for(board.turn as int));
        let p = board.player_board;
        let o = board.opponent_board;
        let mut score: i64 = 0;
        let mut k: usize = 0;
        while k < 64
            invariant
                k <= 64,
                w == weights@,
                w.len() == WEIGHT_LEN,
                score == material(w, p, o, k as nat),
                -256 * k <= score <= 256 * k,
            decreases 64 - k,
        {
            let index = co_to_index(k / 8, k % 8);
            let bit: BitBoard = 1u64 << (63 - k) as u64;
            if p & bit != 0 {
                score += weights[index] as i64;
            }
            if o & bit != 0 {
                score -= weights[index] as i64;
            }
            k += 1;
        }
        let moves = count_ones(board.make_legal_board());
        proof {
            lemma_count_below_bound(board.legal(), 64);
        }
        assert(-128 * 64 <= moves as i64 * weights[10] as i64 <= 128 * 64) by (nonlinear_arith)
            requires
                0 <= moves <= 64,
                -128 <= weights[10] <= 127,
        ;
        score += moves as i64 * weights[10] as i64;
        score
    }

    /// The value of `board` for its mover by a `depth`-ply alpha-beta
    /// negamax search; `alpha` is the parent's best score so far.
    pub fn eval_node(&self, board: &Board, depth: usize, alpha: i64) -> (r: i64)
        requires
            board.turn + depth < usize::MAX,
        ensures
            r == self.node_value(*board, depth as nat, alpha as int),
            -NO_MOVE_SCORE <= r <= NO_MOVE_SCORE,
        decreases depth,
    {
        if depth == 0 {
            return self.eval_board(board);
        }
        if board.is_skip() {
            let mut passed = *board;
            let _ = passed.update(Choice::Skip);
            return -self.eval_node(&passed, depth - 1, -UNBOUNDED);
        }
        let legal = board.make_legal_board();
        let mut max_score: i64 = -NO_MOVE_SCORE;
        let mut k: usize = 0;
        while k < 64
            invariant
                k <= 64,
                depth > 0,
                board.turn + depth < usize::MAX,
                legal == board.legal(),
                !board.spec_is_skip(),
                -NO_MOVE_SCORE <= max_score <= NO_MOVE_SCORE,
                self.scan_value(*board, depth as nat, alpha as int, k as nat, max_score as int)
                    == self.node_value(*board, depth as nat, alpha as int),
            decreases 64 - k,
        {
            let bit: BitBoard = 1u64 << (63 - k) as u64;
            proof {
                lemma_square_bit(k as int);
            }
            if bit & legal != 0 {
                let mut child = *board;
                let res = child.update(Choice::Coordinate((k / 8, k % 8)));
                match res {
                    Ok(JudgeResult::Draw) => {
                        if max_score < 0 {
                            max_score = 0;
                        }
                    },
                    Ok(JudgeResult::Win(winner)) => {
                        if winner == board.player {
                            return WIN_SCORE;
                        }
                        if max_score < -WIN_SCORE {
                            max_score = -WIN_SCORE;
                        }
                    },
                    Ok(JudgeResult::Continue) => {
                        let opponent_score = self.eval_node(&child, depth - 1, max_score);
                        if max_score < -opponent_score {
                            max_score = -opponent_score;
                        }
                    },
                    Err(_) => {},
                }
                if alpha >= -max_score {
                    return max_score;
                }
            }
            k += 1;
        }
        max_score
    }

    /// The move a `depth`-ply search picks for the mover of `board`: a pass
    /// when the mover must pass, a winning move at once, else the best score,
    /// the earliest square among equals.
    pub fn choose_best(&self, board: &Board, depth: usize) -> (r: Choice)
        requires
            depth >= 1,
            board.turn + depth < usize::MAX,
        ensures
            r == self.best_choice(*board, depth as nat),
            !board.spec_is_skip() && board.legal() != 0 ==> (match r {
                Choice::Coordinate((row, col)) => row < 8 && col < 8 && cell_bit(
                    row as int,
                    col as int,
                ) & board.legal() != 0,
                Choice::Skip => false,
            }),
    {
        if board.is_skip() {
            return Choice::Skip;
        }
        let legal = board.make_legal_board();
        let mut max_score: i64 = -UNBOUNDED;
        let mut best_choice = Choice::Skip;
        let mut k: usize = 0;
        while k < 64
            invariant
                k <= 64,
                depth >= 1,
                board.turn + depth < usize::MAX,
                legal == board.legal(),
                !board.spec_is_skip(),
                -UNBOUNDED <= max_score <= NO_MOVE_SCORE,
                self.choice_scan(*board, depth as nat, k as nat, max_score as int, best_choice)
                    == self.best_choice(*board, depth as nat),
                best_choice == Choice::Skip ==> max_score == -UNBOUNDED && (k == 0 || legal >> (64
                    - k) as u64 == 0),
                match best_choice {
                    Choice::Coordinate((row, col)) => row < 8 && col < 8 && cell_bit(
                        row as int,
                        col as int,
                    ) & legal != 0,
                    Choice::Skip => true,
                },
            decreases 64 - k,
        {
            let bit: BitBoard = 1u64 << (63 - k) as u64;
            proof {
                lemma_square_bit(k as int);
                lemma_top_bits(legal, k as u64);
            }
            if bit & legal != 0 {
                let choice = Choice::Coordinate((k / 8, k % 8));
                let mut child = *board;
                match child.update(choice) {
                    Ok(JudgeResult::Draw) => {
                        if max_score < 0 {
                            max_score = 0;
                            best_choice = choice;
                        }
                    },
                    Ok(JudgeResult::Win(winner)) => {
                        if winner == board.player {
                            return choice;
                        }
                        if max_score < -WIN_SCORE {
                            max_score = -WIN_SCORE;
                            best_choice = choice;
                        }
                    },
                    Ok(JudgeResult::Continue) => {
                        let next_score = -self.eval_node(&child, depth - 1, max_score);
                        if max_score < next_score {
                            max_score = next_score;
                            best_choice = choice;
                        }
                    },
                    Err(_) => {},
                }
            }
            k += 1;
        }
        assert(legal >> 0u64 == legal) by (bit_vector);
        best_choice
    }
}

/// More plies than any game lasts.
pub open spec fn game_plies() -> nat {
    130
}

/// The genome that moves on `b`.
pub open spec fn mover_cpu(black: CPU, white: CPU, b: Board) -> CPU {
    if b.player == Player::Black {
        black
    } else {
        white
    }
}

/// The board after `choice`, and what it led to.
pub open spec fn after(b: Board, choice: Choice) -> (Board, JudgeResult) {
    match choice {
        Choice::Skip => (b.passed(), JudgeResult::Continue),
        Choice::Coordinate((row, col)) => {
            let n = b.placed(cell_bit(row as int, col as int));
            (n, n.judged())
        },
    }
}

/// The game from `b` in which each side plays the move its genome's search
/// of `depth` plies picks, for at most `fuel` plies: the last board and how
/// the game ended.
pub open spec fn play_out(black: CPU, white: CPU, depth: nat, b: Board, fuel: nat) -> (
    Board,
    JudgeResult,
)
    decreases fuel,
{
    let choice = mover_cpu(black, white, b).best_choice(b, depth);
    let (n, j) = after(b, choice);
    if fuel <= 1 || j != JudgeResult::Continue {
        (n, j)
    } else {
        play_out(black, white, depth, n, (fuel - 1) as nat)
    }
}

/// The game ends as its last board is judged.
pub proof fn lemma_play_out_judged(black: CPU, white: CPU, depth: nat, b: Board, fuel: nat)
    ensures
        play_out(black, white, depth, b, fuel).1 != JudgeResult::Continue ==> play_out(
            black,
            white,
            depth,
            b,
            fuel,
        ).1 == play_out(black, white, depth, b, fuel).0.judged(),
    decreases fuel,
{
    let choice = mover_cpu(black, white, b).best_choice(b, depth);
    let (n, j) = after(b, choice);
    if !(fuel <= 1 || j != JudgeResult::Continue) {
        lemma_play_out_judged(black, white, depth, n, (fuel - 1) as nat);
    }
}

/// Plays a game from the starting position, `black` against `white`, each
/// searching `depth` plies; gives the winner (`black` on a draw) and the
/// final disc counts of Black and of White.
pub fn eval_cpu<'a>(black: &'a CPU, white: &'a CPU, depth: usize) -> (r: (&'a CPU, usize, usize))
    requires
        1 <= depth,
        depth + 2 * game_plies() < usize::MAX,
    ensures
        ({
            let (fin, j) = play_out(*black, *white, depth as nat, Board::opening(), game_plies());
            &&& j != JudgeResult::Continue
            &&& (j == JudgeResult::Win(Player::White) <==> r.2 > r.1)
            &&& (j == JudgeResult::Draw <==> r.1 == r.2)
            &&& *r.0 == if j == JudgeResult::Win(Player::White) {
                *white
            } else {
                *black
            }
            &&& r.1 == popcount(
                if fin.player == Player::Black {
                    fin.player_board
                } else {
                    fin.opponent_board
                },
            )
            &&& r.2 == popcount(
                if fin.player == Player::Black {
                    fin.opponent_board
                } else {
                    fin.player_board
                },
            )
        }),
{
    let mut board = Board::new();
    let mut winner = black;
    let mut outcome = JudgeResult::Continue;
    let ghost mut fuel: nat = game_plies();
    proof {
        lemma_progress(board, 0, 0);
        crate::board::lemma_opening_moves();
    }
    loop
        invariant_except_break
            !board.spec_is_game_finished(),
            fuel >= progress(board) + 1,
            play_out(*black, *white, depth as nat, board, fuel) == play_out(
                *black,
                *white,
                depth as nat,
                Board::opening(),
                game_plies(),
            ),
        invariant
            1 <= depth,
            depth + 2 * game_plies() < usize::MAX,
            board.wf(),
            board.turn + progress(board) <= 1 + game_plies(),
        ensures
            outcome != JudgeResult::Continue,
            (board, outcome) == play_out(
                *black,
                *white,
                depth as nat,
                Board::opening(),
                game_plies(),
            ),
            *winner == if outcome == JudgeResult::Win(Player::White) {
                *white
            } else {
                *black
            },
        decreases progress(board),
    {
        proof {
            lemma_progress(board, 0, 0);
        }
        let next = if board.player == Player::Black {
            black.choose_best(&board, depth)
        } else {
            white.choose_best(&board, depth)
        };
        proof {
            match next {
                Choice::Coordinate((row, col)) => {
                    lemma_progress(board, row as int, col as int);
                },
                Choice::Skip => {},
            }
        }
        match board.update(next) {
            Ok(JudgeResult::Continue) => {
                proof {
                    fuel = (fuel - 1) as nat;
                }
            },
            Ok(j) => {
                outcome = j;
                winner = if j == JudgeResult::Win(Player::White) {
                    white
                } else {
                    black
                };
                break ;
            },
            Err(_) => {
                break ;
            },
        }
    }
    proof {
        lemma_play_out_judged(*black, *white, depth as nat, Board::opening(), game_plies());
    }
    let (mine, theirs) = board.calc_now_score();
    let (b, w) = if board.player == Player::Black {
        (mine, theirs)
    } else {
        (theirs, mine)
    };
    (winner, b as usize, w as usize)
}

/// Static scores stay within `eval_bound()`.
pub proof fn lemma_eval_bound(cpu: CPU, b: Board)
    ensures
        -eval_bound() <= cpu.spec_eval(b) <= eval_bound(),
{
    let w = cpu.weights_for(b.turn as int);
    lemma_material_bound(w, b.player_board, b.opponent_board, 64);
    lemma_count_below_bound(b.legal(), 64);
    let m = popcount(b.legal()) as int;
    let x = w[10] as int;
    assert(-128 * 64 <= m * x <= 128 * 64) by (nonlinear_arith)
        requires
            0 <= m <= 64,
            -128 <= x <= 127,
    ;
}

proof fn lemma_material_zero(w: Seq<i8>, mover: u64, opponent: u64, n: nat)
    requires
        w.len() == WEIGHT_LEN,
        n <= 64,
        forall|i: int| 0 <= i < 10 ==> w[i] == 0,
    ensures
        material(w, mover, opponent, n) == 0,
    decreases n,
{
    if n > 0 {
        lemma_material_zero(w, mover, opponent, (n - 1) as nat);
        lemma_class_range((n - 1) / 8, (n - 1) % 8);
    }
}

/// A genome whose positional weights are zero in every phase scores every
/// board by the mobility term alone; with a zero mobility weight as well the
/// score is zero.
pub proof fn lemma_zero_weights(cpu: CPU, b: Board)
    requires
        forall|i: int|
            0 <= i < 10 ==> cpu.stage1@[i] == 0 && cpu.stage2@[i] == 0 && cpu.stage3@[i] == 0
                && cpu.stage4@[i] == 0,
    ensures
        cpu.spec_eval(b) == popcount(b.legal()) * cpu.weights_for(b.turn as int)[10],
        cpu.weights_for(b.turn as int)[10] == 0 ==> cpu.spec_eval(b) == 0,
{
    let w = cpu.weights_for(b.turn as int);
    lemma_material_zero(w, b.player_board, b.opponent_board, 64);
}

impl CPU {
    /// The score of the move on square `k` seen one ply deep: 0 for a draw,
    /// the win score for a win of the mover, its negation for a loss, else
    /// the negated static score of the board after the move.
    pub open spec fn one_ply_score(self, b: Board, k: int) -> int {
        let c = b.placed(square_bit(k));
        match c.judged() {
            JudgeResult::Draw => 0,
            JudgeResult::Win(w) => if w == b.player {
                WIN_SCORE as int
            } else {
                -WIN_SCORE
            },
            JudgeResult::Continue => -self.spec_eval(c),
        }
    }

    /// The best one-ply score over the legal moves on squares `k..64`,
    /// starting from `best`, with no cut-off.
    pub open spec fn best_one_ply(self, b: Board, k: nat, best: int) -> int
        decreases 64 - k,
    {
        if k >= 64 {
            best
        } else if square_bit(k as int) & b.legal() == 0 {
            self.best_one_ply(b, k + 1, best)
        } else {
            self.best_one_ply(b, k + 1, higher(best, self.one_ply_score(b, k as int)))
        }
    }
}

proof fn lemma_best_one_ply_won(cpu: CPU, b: Board, k: nat)
    ensures
        cpu.best_one_ply(b, k, WIN_SCORE as int) == WIN_SCORE,
    decreases 64 - k,
{
    if k < 64 {
        lemma_eval_bound(cpu, b.placed(square_bit(k as int)));
        lemma_best_one_ply_won(cpu, b, k + 1);
    }
}

proof fn lemma_scan_one_ply(cpu: CPU, b: Board, alpha: int, k: nat, best: int)
    requires
        alpha <= -NO_MOVE_SCORE,
        -NO_MOVE_SCORE <= best <= eval_bound(),
    ensures
        cpu.scan_value(b, 1, alpha, k, best) == cpu.best_one_ply(b, k, best),
    decreases 64 - k,
{
    if k < 64 && square_bit(k as int) & b.legal() != 0 {
        let c = b.placed(square_bit(k as int));
        lemma_eval_bound(cpu, c);
        if c.judged() == JudgeResult::Win(b.player) {
            lemma_best_one_ply_won(cpu, b, k + 1);
        } else {
            assert(cpu.node_value(c, 0, best) == cpu.spec_eval(c));
            lemma_scan_one_ply(cpu, b, alpha, k + 1, higher(best, cpu.one_ply_score(b, k as int)));
        }
    } else if k < 64 {
        lemma_scan_one_ply(cpu, b, alpha, k + 1, best);
    }
}

/// A one-ply search with no bound from above (`alpha` at or below
/// `-NO_MOVE_SCORE`) cuts nothing off: its value is the best one-ply score of
/// the legal moves, or on a forced pass the negated static score after it.
pub proof fn lemma_depth_one_agrees(cpu: CPU, b: Board, alpha: int)
    requires
        alpha <= -NO_MOVE_SCORE,
    ensures
        b.spec_is_skip() ==> cpu.node_value(b, 1, alpha) == -cpu.spec_eval(b.passed()),
        !b.spec_is_skip() ==> cpu.node_value(b, 1, alpha) == cpu.best_one_ply(
            b,
            0,
            -NO_MOVE_SCORE,
        ),
{
    if !b.spec_is_skip() {
        lemma_scan_one_ply(cpu, b, alpha, 0, -NO_MOVE_SCORE);
    } else {
        assert(cpu.node_value(b.passed(), 0, -UNBOUNDED) == cpu.spec_eval(b.passed()));
    }
}

/// Genes in a genome: eleven in each of four tables.
pub const GENOME_LEN: usize = 44;

/// `r` is laid out from `draws` gene index by gene index: gene `i` of the
/// four tables takes draws `4 * i` to `4 * i + 3`.
pub open spec fn built_from(r: CPU, draws: Seq<i8>) -> bool {
    &&& draws.len() == GENOME_LEN
    &&& forall|i: int|
        0 <= i < WEIGHT_LEN ==> #[trigger] r.stage1@[i] == draws[4 * i] && r.stage2@[i] == draws[4
            * i + 1] && r.stage3@[i] == draws[4 * i + 2] && r.stage4@[i] == draws[4 * i + 3]
}

/// The genome laid out from 44 gene draws, in the order a random genome
/// takes them.
pub fn genome_from_draws(draws: &[i8; GENOME_LEN]) -> (r: CPU)
    ensures
        built_from(r, draws@),
{
    let mut stage1 = [0i8; WEIGHT_LEN];
    let mut stage2 = [0i8; WEIGHT_LEN];
    let mut stage3 = [0i8; WEIGHT_LEN];
    let mut stage4 = [0i8; WEIGHT_LEN];
    let mut i: usize = 0;
    while i < WEIGHT_LEN
        invariant
            i <= WEIGHT_LEN,
            forall|m: int|
                0 <= m < i ==> stage1@[m] == draws@[4 * m] && stage2@[m] == draws@[4 * m + 1]
                    && stage3@[m] == draws@[4 * m + 2] && stage4@[m] == draws@[4 * m + 3],
        decreases WEIGHT_LEN - i,
    {
        stage1[i] = draws[4 * i];
        stage2[i] = draws[4 * i + 1];
        stage3[i] = draws[4 * i + 2];
        stage4[i] = draws[4 * i + 3];
        i += 1;
    }
    CPU { stage1, stage2, stage3, stage4 }
}

/// Probabilities are given in parts per million.
pub const RATE_SCALE: u64 = 1000000;

/// Genes `i..j` from `right`, the others from `left`.
pub open spec fn spliced(left: Seq<i8>, right: Seq<i8>, i: int, j: int) -> Seq<i8> {
    Seq::new(
        WEIGHT_LEN as nat,
        |k: int|
            if i <= k < j {
                right[k]
            } else {
                left[k]
            },
    )
}

/// Gene `k` from `right` when bit `offset + k` of `mask` is set, else from
/// `left`.
pub open spec fn masked(left: Seq<i8>, right: Seq<i8>, mask: u64, offset: int) -> Seq<i8> {
    Seq::new(
        WEIGHT_LEN as nat,
        |k: int|
            if (mask >> ((offset + k) as u64)) & 1 == 1 {
                right[k]
            } else {
                left[k]
            },
    )
}

/// Each gene of `base` plus the same gene of `delta`, wrapping around.
pub open spec fn shifted(base: Seq<i8>, delta: Seq<i8>) -> Seq<i8> {
    Seq::new(WEIGHT_LEN as nat, |k: int| base[k].wrapping_add(delta[k]))
}

impl CPU {
    /// Every table of `self` is the two-point splice `i..j` of `left` and
    /// `right`.
    pub open spec fn is_two_point_of(self, left: CPU, right: CPU, i: int, j: int) -> bool {
        &&& self.stage1@ == spliced(left.stage1@, right.stage1@, i, j)
        &&& self.stage2@ == spliced(left.stage2@, right.stage2@, i, j)
        &&& self.stage3@ == spliced(left.stage3@, right.stage3@, i, j)
        &&& self.stage4@ == spliced(left.stage4@, right.stage4@, i, j)
    }

    /// Every gene of `self` comes from `right` when its bit in `mask` is set
    /// (the tables take bits 0, 11, 22 and 33 on), else from `left`.
    pub open spec fn is_masked_of(self, left: CPU, right: CPU, mask: u64) -> bool {
        &&& self.stage1@ == masked(left.stage1@, right.stage1@, mask, 0)
        &&& self.stage2@ == masked(left.stage2@, right.stage2@, mask, 11)
        &&& self.stage3@ == masked(left.stage3@, right.stage3@, mask, 22)
        &&& self.stage4@ == masked(left.stage4@, right.stage4@, mask, 33)
    }

    /// Every gene of `self` is that of `base` plus that of `delta`, wrapping.
    pub open spec fn is_shift_of(self, base: CPU, delta: CPU) -> bool {
        &&& self.stage1@ == shifted(base.stage1@, delta.stage1@)
        &&& self.stage2@ == shifted(base.stage2@, delta.stage2@)
        &&& self.stage3@ == shifted(base.stage3@, delta.stage3@)
        &&& self.stage4@ == shifted(base.stage4@, delta.stage4@)
    }

    /// A genome of random genes: 44 draws, laid out by `genome_from_draws`.
    pub fn new_random(rng: &mut StdRng) -> (r: CPU)
        ensures
            exists|draws: Seq<i8>| built_from(r, draws),
    {
        let mut draws = [0i8; GENOME_LEN];
        let mut n: usize = 0;
        while n < GENOME_LEN
            decreases GENOME_LEN - n,
        {
            draws[n] = random_i8(rng);
            n += 1;
        }
        genome_from_draws(&draws)
    }

    /// Adds `delta` gene by gene, wrapping around.
    pub fn shift_by(&mut self, delta: &CPU)
        ensures
            final(self).is_shift_of(*old(self), *delta),
    {
        self.stage1 = shift_table(&self.stage1, &delta.stage1);
        self.stage2 = shift_table(&self.stage2, &delta.stage2);
        self.stage3 = shift_table(&self.stage3, &delta.stage3);
        self.stage4 = shift_table(&self.stage4, &delta.stage4);
    }
}

fn splice_table(left: &[i8; WEIGHT_LEN], right: &[i8; WEIGHT_LEN], i: usize, j: usize) -> (r: [i8; WEIGHT_LEN])
    ensures
        r@ == spliced(left@, right@, i as int, j as int),
{
    let mut out = [0i8; WEIGHT_LEN];
    let mut k: usize = 0;
    while k < WEIGHT_LEN
        invariant
            k <= WEIGHT_LEN,
            forall|m: int|
                0 <= m < k ==> out@[m] == if i <= m < j {
                    right@[m]
                } else {
                    left@[m]
                },
        decreases WEIGHT_LEN - k,
    {
        if i <= k && k < j {
            out[k] = right[k];
        } else {
            out[k] = left[k];
        }
        k += 1;
    }
    assert(out@ =~= spliced(left@, right@, i as int, j as int));
    out
}

fn mask_table(left: &[i8; WEIGHT_LEN], right: &[i8; WEIGHT_LEN], mask: u64, offset: usize) -> (r: [i8; WEIGHT_LEN])
    requires
        offset <= 33,
    ensures
        r@ == masked(left@, right@, mask, offset as int),
{
    let mut out = [0i8; WEIGHT_LEN];
    let mut k: usize = 0;
    while k < WEIGHT_LEN
        invariant
            k <= WEIGHT_LEN,
            offset <= 33,
            forall|m: int|
                0 <= m < k ==> out@[m] == if (mask >> ((offset + m) as u64)) & 1 == 1 {
                    right@[m]
                } else {
                    left@[m]
                },
        decreases WEIGHT_LEN - k,
    {
        if (mask >> (offset + k) as u64) & 1 == 1 {
            out[k] = right[k];
        } else {
            out[k] = left[k];
        }
        k += 1;
    }
    assert(out@ =~= masked(left@, right@, mask, offset as int));
    out
}

fn shift_table(base: &[i8; WEIGHT_LEN], delta: &[i8; WEIGHT_LEN]) -> (r: [i8; WEIGHT_LEN])
    ensures
        r@ == shifted(base@, delta@),
{
    let mut out = [0i8; WEIGHT_LEN];
    let mut k: usize = 0;
    while k < WEIGHT_LEN
        invariant
            k <= WEIGHT_LEN,
            forall|m: int| 0 <= m < k ==> out@[m] == base@[m].wrapping_add(delta@[m]),
        decreases WEIGHT_LEN - k,
    {
        out[k] = base[k].wrapping_add(delta[k]);
        k += 1;
    }
    assert(out@ =~= shifted(base@, delta@));
    out
}

/// The two-point splice of `left` and `right` with cut points `i <= j`:
/// genes `i..j` of every table from `right`, the others from `left`.
pub fn two_point_cross_at(left: &CPU, right: &CPU, i: usize, j: usize) -> (r: CPU)
    ensures
        r.is_two_point_of(*left, *right, i as int, j as int),
{
    CPU {
        stage1: splice_table(&left.stage1, &right.stage1, i, j),
        stage2: splice_table(&left.stage2, &right.stage2, i, j),
        stage3: splice_table(&left.stage3, &right.stage3, i, j),
        stage4: splice_table(&left.stage4, &right.stage4, i, j),
    }
}

/// A two-point splice at random cut points `i <= j` below 11.
pub fn two_point_cross(left: &CPU, right: &CPU, rng: &mut StdRng) -> (r: CPU)
    ensures
        exists|i: int, j: int| 0 <= i <= j < WEIGHT_LEN && r.is_two_point_of(*left, *right, i, j),
{
    let i = random_range(rng, 0, WEIGHT_LEN as u64);
    let j = random_range(rng, i, WEIGHT_LEN as u64);
    let r = two_point_cross_at(left, right, i as usize, j as usize);
    assert(r.is_two_point_of(*left, *right, i as int, j as int));
    r
}

/// The outcome of a crossover with rate `rate` (parts per million) for the
/// draw `u` and the cut points `i..j`: `left` unchanged unless `u < rate`,
/// else the two-point splice.
pub open spec fn is_cross_of(r: CPU, left: CPU, right: CPU, rate: u64, u: u64, i: int, j: int) -> bool {
    if u >= rate {
        r == left
    } else {
        r.is_two_point_of(left, right, i, j)
    }
}

/// A crossover for a given draw `u` below `RATE_SCALE` and cut points
/// `i <= j`: `left` when `u >= rate`, else the two-point splice `i..j`.
pub fn cross_with(left: &CPU, right: &CPU, rate: u64, u: u64, i: usize, j: usize) -> (r: CPU)
    ensures
        is_cross_of(r, *left, *right, rate, u, i as int, j as int),
{
    if u >= rate {
        *left
    } else {
        two_point_cross_at(left, right, i, j)
    }
}

/// With probability `cross_rate` parts per million, a two-point splice of
/// `left` and `right` at random cut points; otherwise `left` unchanged. The
/// draw comes first, the cut points only when they are needed.
pub fn cross_cpu(left: &CPU, right: &CPU, cross_rate: u64, rng: &mut StdRng) -> (r: CPU)
    ensures
        exists|u: u64, i: int, j: int|
            u < RATE_SCALE && 0 <= i <= j < WEIGHT_LEN && #[trigger] is_cross_of(
                r,
                *left,
                *right,
                cross_rate,
                u,
                i,
                j,
            ),
        cross_rate == 0 ==> r == *left,
        cross_rate >= RATE_SCALE ==> exists|i: int, j: int|
            0 <= i <= j < WEIGHT_LEN && r.is_two_point_of(*left, *right, i, j),
{
    let u = random_range(rng, 0, RATE_SCALE);
    let (i, j) = if u >= cross_rate {
        (0, 0)
    } else {
        let i = random_range(rng, 0, WEIGHT_LEN as u64);
        let j = random_range(rng, i, WEIGHT_LEN as u64);
        (i, j)
    };
    let r = cross_with(left, right, cross_rate, u, i as usize, j as usize);
    assert(is_cross_of(r, *left, *right, cross_rate, u, i as int, j as int));
    r
}

/// Gene by gene, `right`'s gene where the gene's bit of `mask` is set (bits
/// 0 to 43, table after table), `left`'s otherwise.
pub fn mask_cross(left: &CPU, right: &CPU, mask: u64) -> (r: CPU)
    ensures
        r.is_masked_of(*left, *right, mask),
{
    CPU {
        stage1: mask_table(&left.stage1, &right.stage1, mask, 0),
        stage2: mask_table(&left.stage2, &right.stage2, mask, 11),
        stage3: mask_table(&left.stage3, &right.stage3, mask, 22),
        stage4: mask_table(&left.stage4, &right.stage4, mask, 33),
    }
}

/// A uniform splice: each gene from `left` or `right` by a random bit.
pub fn random_cross(left: &CPU, right: &CPU, rng: &mut StdRng) -> (r: CPU)
    ensures
        exists|mask: u64| r.is_masked_of(*left, *right, mask),
{
    let mask = random_u64(rng);
    mask_cross(left, right, mask)
}

/// The outcome of a mutation with rate `rate` (parts per million) for the
/// draw `u` and the random genome `delta`: `delta` added gene by gene when
/// `u < rate`, else `cpu` unchanged.
pub open spec fn is_mutation_of(r: CPU, cpu: CPU, rate: u64, u: u64, delta: CPU) -> bool {
    if u < rate {
        r.is_shift_of(cpu, delta)
    } else {
        r == cpu
    }
}

/// A mutation for a given draw `u` and random genome `delta`.
pub fn mutate_with(cpu: &mut CPU, mutate_rate: u64, u: u64, delta: &CPU)
    ensures
        is_mutation_of(*final(cpu), *old(cpu), mutate_rate, u, *delta),
{
    if u < mutate_rate {
        cpu.shift_by(delta);
    }
}

/// The all-zero genome.
pub fn zero_genome() -> (r: CPU)
    ensures
        forall|i: int|
            0 <= i < WEIGHT_LEN ==> r.stage1@[i] == 0 && r.stage2@[i] == 0 && r.stage3@[i] == 0
                && r.stage4@[i] == 0,
{
    CPU {
        stage1: [0i8; WEIGHT_LEN],
        stage2: [0i8; WEIGHT_LEN],
        stage3: [0i8; WEIGHT_LEN],
        stage4: [0i8; WEIGHT_LEN],
    }
}

/// Draws what one mutation needs: `u` below `RATE_SCALE`, then a random
/// genome only when `u < mutate_rate` (the zero genome otherwise).
pub fn draw_mutation(mutate_rate: u64, rng: &mut StdRng) -> (r: (u64, CPU))
    ensures
        r.0 < RATE_SCALE,
{
    let u = random_range(rng, 0, RATE_SCALE);
    let delta = if u < mutate_rate {
        CPU::new_random(rng)
    } else {
        zero_genome()
    };
    (u, delta)
}

/// With probability `mutate_rate` parts per million, adds a random genome to
/// `cpu` gene by gene (wrapping); otherwise leaves it as it is.
pub fn mutate_cpu(cpu: &mut CPU, mutate_rate: u64, rng: &mut StdRng)
    ensures
        exists|u: u64, delta: CPU|
            u < RATE_SCALE && #[trigger] is_mutation_of(*final(cpu), *old(cpu), mutate_rate, u, delta),
        mutate_rate == 0 ==> *final(cpu) == *old(cpu),
{
    let (u, delta) = draw_mutation(mutate_rate, rng);
    mutate_with(cpu, mutate_rate, u, &delta);
}

impl CPU {
    /// The plain negamax value of `b` for its mover over `depth` plies, with
    /// no cut-offs (a winning move still ends the look at once).
    pub open spec fn negamax(self, b: Board, depth: nat) -> int
        decreases depth, 65int,
    {
        if depth == 0 {
            self.spec_eval(b)
        } else if b.spec_is_skip() {
            -self.negamax(b.passed(), (depth - 1) as nat)
        } else {
            self.negamax_scan(b, depth, 0, -NO_MOVE_SCORE)
        }
    }

    /// The best negamax score over the moves on squares `k..64`, starting
    /// from `best`.
    pub open spec fn negamax_scan(self, b: Board, depth: nat, k: nat, best: int) -> int
        decreases depth, 64 - k,
    {
        if k >= 64 || depth == 0 {
            best
        } else if square_bit(k as int) & b.legal() == 0 {
            self.negamax_scan(b, depth, k + 1, best)
        } else {
            let c = b.placed(square_bit(k as int));
            let j = c.judged();
            if j == JudgeResult::Win(b.player) {
                WIN_SCORE as int
            } else {
                let score = match j {
                    JudgeResult::Draw => 0,
                    JudgeResult::Win(_) => -WIN_SCORE,
                    JudgeResult::Continue => -self.negamax(c, (depth - 1) as nat),
                };
                self.negamax_scan(b, depth, k + 1, higher(best, score))
            }
        }
    }
}

/// A nonzero bitboard has a set square.
proof fn lemma_some_square(x: u64) -> (k: int)
    requires
        x != 0,
    ensures
        0 <= k < 64,
        square_bit(k) & x != 0,
{
    if forall|k: int| 0 <= k < 64 ==> #[trigger] square_bit(k) & x == 0 {
        lemma_top_clear(x, 64);
        assert(x >> 0u64 == x) by (bit_vector);
        assert(false);
    }
    choose|k: int| 0 <= k < 64 && square_bit(k) & x != 0
}

proof fn lemma_top_clear(x: u64, n: u64)
    requires
        n <= 64,
        forall|k: int| 0 <= k < 64 ==> #[trigger] square_bit(k) & x == 0,
    ensures
        n == 0 || x >> ((64 - n) as u64) == 0,
    decreases n,
{
    if n > 0 {
        lemma_top_clear(x, (n - 1) as u64);
        lemma_square_bit((n - 1) as int);
        lemma_top_bits(x, (n - 1) as u64);
        assert(square_bit((n - 1) as int) & x == 0);
    }
}

/// Negamax values never pass the win score, and on a board where someone
/// can still move they never fall below the loss score.
proof fn lemma_negamax_bounds(cpu: CPU, b: Board, depth: nat)
    ensures
        cpu.negamax(b, depth) <= WIN_SCORE,
        !b.spec_is_game_finished() ==> cpu.negamax(b, depth) >= -WIN_SCORE,
    decreases depth, 65int,
{
    if depth == 0 {
        lemma_eval_bound(cpu, b);
    } else if b.spec_is_skip() {
        lemma_negamax_bounds(cpu, b.passed(), (depth - 1) as nat);
    } else {
        lemma_negamax_scan_upper(cpu, b, depth, 0, -NO_MOVE_SCORE);
        if !b.spec_is_game_finished() {
            let k = lemma_some_square(b.legal());
            lemma_negamax_scan_lower(cpu, b, depth, 0, -NO_MOVE_SCORE, k);
        }
    }
}

/// A move that lets play go on leaves a board where someone can move.
proof fn lemma_continue_unfinished(c: Board)
    ensures
        c.judged() == JudgeResult::Continue ==> !c.spec_is_game_finished(),
{
}

/// The negamax scan stays at or below the win score and never drops below
/// its start.
proof fn lemma_negamax_scan_upper(cpu: CPU, b: Board, depth: nat, k: nat, best: int)
    requires
        best <= WIN_SCORE,
    ensures
        best <= cpu.negamax_scan(b, depth, k, best) <= WIN_SCORE,
    decreases depth, 64 - k,
{
    if k < 64 && depth > 0 {
        if square_bit(k as int) & b.legal() == 0 {
            lemma_negamax_scan_upper(cpu, b, depth, k + 1, best);
        } else {
            let c = b.placed(square_bit(k as int));
            let j = c.judged();
            if j != JudgeResult::Win(b.player) {
                lemma_continue_unfinished(c);
                lemma_negamax_bounds(cpu, c, (depth - 1) as nat);
                let score = match j {
                    JudgeResult::Draw => 0,
                    JudgeResult::Win(_) => -WIN_SCORE,
                    JudgeResult::Continue => -cpu.negamax(c, (depth - 1) as nat),
                };
                lemma_negamax_scan_upper(cpu, b, depth, k + 1, higher(best, score));
            }
        }
    }
}

/// With a legal move on a square `kk` still ahead, the negamax scan reaches
/// at least the loss score.
proof fn lemma_negamax_scan_lower(cpu: CPU, b: Board, depth: nat, k: nat, best: int, kk: int)
    requires
        best <= WIN_SCORE,
        depth > 0,
        k <= kk < 64,
        square_bit(kk) & b.legal() != 0,
    ensures
        cpu.negamax_scan(b, depth, k, best) >= -WIN_SCORE,
    decreases depth, 64 - k,
{
    if square_bit(k as int) & b.legal() == 0 {
        lemma_negamax_scan_lower(cpu, b, depth, k + 1, best, kk);
    } else {
        let c = b.placed(square_bit(k as int));
        let j = c.judged();
        if j != JudgeResult::Win(b.player) {
            lemma_continue_unfinished(c);
            lemma_negamax_bounds(cpu, c, (depth - 1) as nat);
            let score = match j {
                JudgeResult::Draw => 0,
                JudgeResult::Win(_) => -WIN_SCORE,
                JudgeResult::Continue => -cpu.negamax(c, (depth - 1) as nat),
            };
            lemma_negamax_scan_upper(cpu, b, depth, k + 1, higher(best, score));
        }
    }
}

proof fn lemma_alpha_beta_node(cpu: CPU, b: Board, depth: nat, alpha: int)
    ensures
        ({
            let r = cpu.node_value(b, depth, alpha);
            let v = cpu.negamax(b, depth);
            r == v || (alpha >= -r && alpha >= -v)
        }),
    decreases depth, 65int,
{
    if depth > 0 {
        if b.spec_is_skip() {
            lemma_alpha_beta_node(cpu, b.passed(), (depth - 1) as nat, -UNBOUNDED);
            lemma_negamax_bounds(cpu, b.passed(), (depth - 1) as nat);
        } else {
            lemma_alpha_beta_scan(cpu, b, depth, alpha, 0, -NO_MOVE_SCORE);
        }
    }
}

proof fn lemma_alpha_beta_scan(cpu: CPU, b: Board, depth: nat, alpha: int, k: nat, best: int)
    requires
        depth > 0,
        best <= WIN_SCORE,
    ensures
        ({
            let r = cpu.scan_value(b, depth, alpha, k, best);
            let v = cpu.negamax_scan(b, depth, k, best);
            r == v || (alpha >= -r && alpha >= -v)
        }),
    decreases depth, 64 - k,
{
    if k < 64 {
        if square_bit(k as int) & b.legal() == 0 {
            lemma_alpha_beta_scan(cpu, b, depth, alpha, k + 1, best);
        } else {
            let c = b.placed(square_bit(k as int));
            let j = c.judged();
            if j != JudgeResult::Win(b.player) {
                lemma_continue_unfinished(c);
                lemma_negamax_bounds(cpu, c, (depth - 1) as nat);
                lemma_alpha_beta_node(cpu, c, (depth - 1) as nat, best);
                let score = match j {
                    JudgeResult::Draw => 0,
                    JudgeResult::Win(_) => -WIN_SCORE,
                    JudgeResult::Continue => -cpu.negamax(c, (depth - 1) as nat),
                };
                let nb = higher(best, score);
                assert(nb == match j {
                    JudgeResult::Draw => higher(best, 0),
                    JudgeResult::Win(_) => higher(best, -WIN_SCORE),
                    JudgeResult::Continue => higher(
                        best,
                        -cpu.node_value(c, (depth - 1) as nat, best),
                    ),
                });
                lemma_negamax_scan_upper(cpu, b, depth, k + 1, nb);
                if alpha < -nb {
                    lemma_alpha_beta_scan(cpu, b, depth, alpha, k + 1, nb);
                }
            }
        }
    }
}

/// Alpha-beta search gives the plain negamax value, or, where it cuts a
/// node short, a value that the parent (already holding `alpha`) discards
/// just as it would discard the exact one. With no bound from above
/// (`alpha` below the loss score) the two values are equal.
pub proof fn lemma_alpha_beta_sound(cpu: CPU, b: Board, depth: nat, alpha: int)
    ensures
        cpu.node_value(b, depth, alpha) == cpu.negamax(b, depth) || (alpha >= -cpu.node_value(
            b,
            depth,
            alpha,
        ) && alpha >= -cpu.negamax(b, depth)),
        alpha < -WIN_SCORE ==> cpu.node_value(b, depth, alpha) == cpu.negamax(b, depth),
{
    lemma_alpha_beta_node(cpu, b, depth, alpha);
    lemma_negamax_bounds(cpu, b, depth);
}

proof fn lemma_square_bit(k: int)
    requires
        0 <= k < 64,
    ensures
        square_bit(k) == 1u64 << ((63 - k) as u64),
        0 <= k / 8 < 8,
        0 <= k % 8 < 8,
{
    assert(8 * (k / 8) + k % 8 == k) by (nonlinear_arith)
        requires
            0 <= k,
    ;
    assert(0 <= k / 8 < 8) by (nonlinear_arith)
        requires
            0 <= k < 64,
    ;
}

/// With the top `k` bits of `x` clear and bit `63 - k` clear, the top `k + 1`
/// bits are clear.
proof fn lemma_top_bits(x: u64, k: u64)
    requires
        k < 64,
    ensures
        (k == 0 || x >> ((64 - k) as u64) == 0) && (1u64 << ((63 - k) as u64)) & x == 0 ==> x >> ((
        63 - k) as u64) == 0,
        k == 63 ==> (x >> 0u64 == x),
{
    assert(k < 64 ==> ((k == 0 || x >> ((64 - k) as u64) == 0) && (1u64 << ((63 - k) as u64)) & x
        == 0 ==> x >> ((63 - k) as u64) == 0)) by (bit_vector);
    assert(x >> 0u64 == x) by (bit_vector);
}

} // verus!
