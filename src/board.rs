//! The game state: two role-relative bitboards, legal-move generation,
//! move application and the end-of-game rules.
use vstd::prelude::*;

use crate::bits::{
    at_most_one_bit, count_ones, lemma_count_below_bound, lemma_popcount_disjoint_union, lemma_popcount_single,
    lemma_shift_single, lemma_single_meets, popcount,
};

verus! {

/// One of the two sides.
#[derive(Debug, Clone, Copy, PartialEq, Eq, Structural)]
pub enum Player {
    Black,
    White,
}

impl Player {
    pub open spec fn spec_next(self) -> Player {
        match self {
            Player::Black => Player::White,
            Player::White => Player::Black,
        }
    }

    /// The other side.
    pub fn next(&self) -> (r: Player)
        ensures
            r == self.spec_next(),
    {
        match self {
            Player::Black => Player::White,
            Player::White => Player::Black,
        }
    }
}

/// A set of cells: cell `(row, col)` is bit `63 - 8 * row - col`.
pub type BitBoard = u64;

/// A cell as `(row, col)`.
pub type Coordinate = (usize, usize);

/// What a move leads to.
#[derive(Debug, Clone, Copy, PartialEq, Eq, Structural)]
pub enum JudgeResult {
    Continue,
    Draw,
    Win(Player),
}

/// A move: a pass, or a disc on a cell.
#[derive(Debug, Clone, Copy, PartialEq, Eq)]
pub enum Choice {
    Skip,
    Coordinate(Coordinate),
}

/// Why a move was refused.
#[derive(Debug, Clone, Copy, PartialEq, Eq, Structural)]
pub enum MoveError {
    /// The row or the column is 8 or more.
    OutOfIndex,
    /// The cell is not among the mover's legal moves.
    Impossible,
}

/// Opponent discs that a horizontal ray may cross: columns 1 to 6.
pub const HORIZONTAL_WATCH: u64 = 0x7e7e7e7e7e7e7e7e;

/// Opponent discs that a vertical ray may cross: rows 1 to 6.
pub const VERTICAL_WATCH: u64 = 0x00ffffffffffff00;

/// Opponent discs that a diagonal ray may cross: the inner 6 by 6 square.
pub const DIAGONAL_WATCH: u64 = 0x007e7e7e7e7e7e00;

/// The run of `watch` cells reached from `from` by steps of `s` bits toward
/// the high bits, up to six cells long.
pub open spec fn spec_ray_high(watch: u64, from: u64, s: u64) -> u64 {
    let t1 = watch & (from << s);
    let t2 = t1 | (watch & (t1 << s));
    let t3 = t2 | (watch & (t2 << s));
    let t4 = t3 | (watch & (t3 << s));
    let t5 = t4 | (watch & (t4 << s));
    t5 | (watch & (t5 << s))
}

/// The run of `watch` cells reached from `from` by steps of `s` bits toward
/// the low bits, up to six cells long.
pub open spec fn spec_ray_low(watch: u64, from: u64, s: u64) -> u64 {
    let t1 = watch & (from >> s);
    let t2 = t1 | (watch & (t1 >> s));
    let t3 = t2 | (watch & (t2 >> s));
    let t4 = t3 | (watch & (t3 >> s));
    let t5 = t4 | (watch & (t4 >> s));
    t5 | (watch & (t5 >> s))
}

/// The cells one step past a run of opponent discs that starts next to a
/// mover disc, over the eight directions.
pub open spec fn ray_ends(mover: u64, opponent: u64) -> u64 {
    let h = opponent & HORIZONTAL_WATCH;
    let v = opponent & VERTICAL_WATCH;
    let d = opponent & DIAGONAL_WATCH;
    (spec_ray_high(h, mover, 1) << 1u64) | (spec_ray_low(h, mover, 1) >> 1u64) | (spec_ray_high(
        v,
        mover,
        8,
    ) << 8u64) | (spec_ray_low(v, mover, 8) >> 8u64) | (spec_ray_high(d, mover, 7) << 7u64) | (
    spec_ray_high(d, mover, 9) << 9u64) | (spec_ray_low(d, mover, 9) >> 9u64) | (spec_ray_low(
        d,
        mover,
        7,
    ) >> 7u64)
}

/// The legal moves of the side owning `mover` against `opponent`: the empty
/// cells that close a run of opponent discs in some direction.
pub open spec fn legal_moves(mover: u64, opponent: u64) -> u64 {
    !(mover | opponent) & ray_ends(mover, opponent)
}

fn ray_high(watch: u64, from: u64, s: u64) -> (r: u64)
    requires
        s < 64,
    ensures
        r == spec_ray_high(watch, from, s),
{
    let mut t = watch & (from << s);
    t = t | (watch & (t << s));
    t = t | (watch & (t << s));
    t = t | (watch & (t << s));
    t = t | (watch & (t << s));
    t = t | (watch & (t << s));
    t
}

fn ray_low(watch: u64, from: u64, s: u64) -> (r: u64)
    requires
        s < 64,
    ensures
        r == spec_ray_low(watch, from, s),
{
    let mut t = watch & (from >> s);
    t = t | (watch & (t >> s));
    t = t | (watch & (t >> s));
    t = t | (watch & (t >> s));
    t = t | (watch & (t >> s));
    t = t | (watch & (t >> s));
    t
}

/// The bit of cell `(row, col)`.
pub open spec fn cell_bit(row: int, col: int) -> u64 {
    1u64 << ((63 - 8 * row - col) as u64)
}

/// One step from each cell of `x` in direction `k`, dropping steps that
/// would leave the board.
pub open spec fn spec_transfer(x: u64, k: u64) -> u64 {
    if k == 0 {
        (x << 8u64) & 0xffffffffffffff00
    } else if k == 1 {
        (x << 7u64) & 0x7f7f7f7f7f7f7f00
    } else if k == 2 {
        (x >> 1u64) & 0x7f7f7f7f7f7f7f7f
    } else if k == 3 {
        (x >> 9u64) & 0x007f7f7f7f7f7f7f
    } else if k == 4 {
        (x >> 8u64) & 0x00ffffffffffffff
    } else if k == 5 {
        (x >> 7u64) & 0x00fefefefefefefe
    } else if k == 6 {
        (x << 1u64) & 0xfefefefefefefefe
    } else {
        (x << 9u64) & 0xfefefefefefefe00
    }
}

/// Walks from `mask` in direction `k` over opponent discs, adding them to
/// `run`, for at most `fuel` steps; gives the run and the cell it stopped on.
pub open spec fn walk(opponent: u64, run: u64, mask: u64, k: u64, fuel: nat) -> (u64, u64)
    decreases fuel,
{
    if fuel == 0 || mask == 0 || mask & opponent == 0 {
        (run, mask)
    } else {
        walk(opponent, run | mask, spec_transfer(mask, k), k, (fuel - 1) as nat)
    }
}

/// A line of the board holds eight cells, so no walk takes more steps.
pub open spec fn walk_limit() -> nat {
    8
}

/// The opponent discs that a disc on `put` turns over in direction `k`: the
/// run next to `put`, when a mover disc closes it.
pub open spec fn flips_toward(mover: u64, opponent: u64, put: u64, k: u64) -> u64 {
    let (run, end) = walk(opponent, 0, spec_transfer(put, k), k, walk_limit());
    if end & mover != 0 {
        run
    } else {
        0
    }
}

/// The discs turned over in the directions `0..n`.
pub open spec fn flips_upto(mover: u64, opponent: u64, put: u64, n: nat) -> u64
    decreases n,
{
    if n == 0 {
        0
    } else {
        flips_upto(mover, opponent, put, (n - 1) as nat) | flips_toward(
            mover,
            opponent,
            put,
            (n - 1) as u64,
        )
    }
}

/// The discs that a disc on `put` turns over.
pub open spec fn flips(mover: u64, opponent: u64, put: u64) -> u64 {
    flips_upto(mover, opponent, put, 8)
}

/// Legal moves are empty cells.
pub proof fn lemma_legal_blank(mover: u64, opponent: u64)
    ensures
        legal_moves(mover, opponent) & (mover | opponent) == 0,
{
    let e = ray_ends(mover, opponent);
    assert((!(mover | opponent) & e) & (mover | opponent) == 0) by (bit_vector);
}

proof fn lemma_transfer_single(x: u64, k: u64)
    requires
        at_most_one_bit(x),
    ensures
        at_most_one_bit(spec_transfer(x, k)),
{
    let t = spec_transfer(x, k);
    if k == 0 {
        assert(x & ((x - 1) as u64) == 0 ==> ((x << 8u64) & 0xffffffffffffff00) & ((((x << 8u64)
            & 0xffffffffffffff00) - 1) as u64) == 0) by (bit_vector);
    } else if k == 1 {
        assert(x & ((x - 1) as u64) == 0 ==> ((x << 7u64) & 0x7f7f7f7f7f7f7f00) & ((((x << 7u64)
            & 0x7f7f7f7f7f7f7f00) - 1) as u64) == 0) by (bit_vector);
    } else if k == 2 {
        assert(x & ((x - 1) as u64) == 0 ==> ((x >> 1u64) & 0x7f7f7f7f7f7f7f7f) & ((((x >> 1u64)
            & 0x7f7f7f7f7f7f7f7f) - 1) as u64) == 0) by (bit_vector);
    } else if k == 3 {
        assert(x & ((x - 1) as u64) == 0 ==> ((x >> 9u64) & 0x007f7f7f7f7f7f7f) & ((((x >> 9u64)
            & 0x007f7f7f7f7f7f7f) - 1) as u64) == 0) by (bit_vector);
    } else if k == 4 {
        assert(x & ((x - 1) as u64) == 0 ==> ((x >> 8u64) & 0x00ffffffffffffff) & ((((x >> 8u64)
            & 0x00ffffffffffffff) - 1) as u64) == 0) by (bit_vector);
    } else if k == 5 {
        assert(x & ((x - 1) as u64) == 0 ==> ((x >> 7u64) & 0x00fefefefefefefe) & ((((x >> 7u64)
            & 0x00fefefefefefefe) - 1) as u64) == 0) by (bit_vector);
    } else if k == 6 {
        assert(x & ((x - 1) as u64) == 0 ==> ((x << 1u64) & 0xfefefefefefefefe) & ((((x << 1u64)
            & 0xfefefefefefefefe) - 1) as u64) == 0) by (bit_vector);
    } else {
        assert(x & ((x - 1) as u64) == 0 ==> ((x << 9u64) & 0xfefefefefefefe00) & ((((x << 9u64)
            & 0xfefefefefefefe00) - 1) as u64) == 0) by (bit_vector);
    }
}

/// A walk only gathers opponent discs.
proof fn lemma_walk_within(opponent: u64, run: u64, mask: u64, k: u64, fuel: nat)
    requires
        run & opponent == run,
        at_most_one_bit(mask),
    ensures
        walk(opponent, run, mask, k, fuel).0 & opponent == walk(opponent, run, mask, k, fuel).0,
    decreases fuel,
{
    if !(fuel == 0 || mask == 0 || mask & opponent == 0) {
        lemma_single_meets(mask, opponent);
        assert((run | mask) & opponent == run | mask) by (bit_vector)
            requires
                run & opponent == run,
                mask & opponent == mask,
        ;
        lemma_transfer_single(mask, k);
        lemma_walk_within(opponent, run | mask, spec_transfer(mask, k), k, (fuel - 1) as nat);
    }
}

/// Only opponent discs are turned over.
pub proof fn lemma_flips_within(mover: u64, opponent: u64, put: u64, n: nat)
    requires
        at_most_one_bit(put),
        n <= 8,
    ensures
        flips_upto(mover, opponent, put, n) & opponent == flips_upto(mover, opponent, put, n),
    decreases n,
{
    assert(0u64 & opponent == 0u64) by (bit_vector);
    if n > 0 {
        let k = (n - 1) as u64;
        lemma_flips_within(mover, opponent, put, (n - 1) as nat);
        lemma_transfer_single(put, k);
        assert(0u64 & opponent == 0u64) by (bit_vector);
        lemma_walk_within(opponent, 0, spec_transfer(put, k), k, walk_limit());
        let a = flips_upto(mover, opponent, put, (n - 1) as nat);
        let b = flips_toward(mover, opponent, put, k);
        assert(b & opponent == b);
        assert((a | b) & opponent == a | b) by (bit_vector)
            requires
                a & opponent == a,
                b & opponent == b,
        ;
    }
}

/// The game state, role-relative: `player_board` holds the discs of the side
/// to move, `opponent_board` those of the other side.
#[derive(Debug, Clone, Copy, PartialEq, Eq, Structural)]
pub struct Board {
    pub turn: usize,
    pub player: Player,
    pub player_board: BitBoard,
    pub opponent_board: BitBoard,
}

impl Board {
    /// No cell holds two discs.
    pub open spec fn wf(self) -> bool {
        self.player_board & self.opponent_board == 0
    }

    /// The mover's legal moves.
    pub open spec fn legal(self) -> u64 {
        legal_moves(self.player_board, self.opponent_board)
    }

    /// The legal moves the other side would have if it were to move.
    pub open spec fn opponent_legal(self) -> u64 {
        legal_moves(self.opponent_board, self.player_board)
    }

    /// The starting position: four centre discs, Black to move.
    pub open spec fn opening() -> Board {
        Board {
            turn: 1,
            player: Player::Black,
            player_board: 0x0000000810000000,
            opponent_board: 0x0000001008000000,
        }
    }

    /// The starting position, Black to move.
    pub fn new() -> (r: Board)
        ensures
            r == Board::opening(),
            r.wf(),
    {
        let r = Board {
            turn: 1,
            player: Player::Black,
            player_board: 0x0000000810000000,
            opponent_board: 0x0000001008000000,
        };
        assert(0x0000000810000000u64 & 0x0000001008000000u64 == 0) by (bit_vector);
        r
    }

    /// The mover's legal moves, as a bitboard.
    pub fn make_legal_board(&self) -> (r: BitBoard)
        ensures
            r == self.legal(),
    {
        let p = self.player_board;
        let o = self.opponent_board;
        let h = o & HORIZONTAL_WATCH;
        let v = o & VERTICAL_WATCH;
        let d = o & DIAGONAL_WATCH;
        let blank = !(p | o);
        let ends = (ray_high(h, p, 1) << 1u64) | (ray_low(h, p, 1) >> 1u64) | (ray_high(v, p, 8)
            << 8u64) | (ray_low(v, p, 8) >> 8u64) | (ray_high(d, p, 7) << 7u64) | (ray_high(d, p, 9)
            << 9u64) | (ray_low(d, p, 9) >> 9u64) | (ray_low(d, p, 7) >> 7u64);
        blank & ends
    }
}

impl Board {
    /// The board after the mover passes.
    pub open spec fn passed(self) -> Board {
        Board {
            turn: (self.turn + 1) as usize,
            player: self.player.spec_next(),
            player_board: self.opponent_board,
            opponent_board: self.player_board,
        }
    }

    /// The board after the mover puts a disc on the cell `put`.
    pub open spec fn placed(self, put: u64) -> Board {
        let f = flips(self.player_board, self.opponent_board, put);
        Board {
            turn: (self.turn + 1) as usize,
            player: self.player.spec_next(),
            player_board: self.opponent_board ^ f,
            opponent_board: self.player_board ^ (put | f),
        }
    }

    pub open spec fn spec_is_skip(self) -> bool {
        self.legal() == 0 && self.opponent_legal() != 0
    }

    pub open spec fn spec_is_game_finished(self) -> bool {
        self.legal() == 0 && self.opponent_legal() == 0
    }

    /// The outcome on this board: when neither side can move, the side with
    /// more discs wins; otherwise play goes on.
    pub open spec fn judged(self) -> JudgeResult {
        if self.spec_is_game_finished() {
            let mine = popcount(self.player_board);
            let theirs = popcount(self.opponent_board);
            if mine == theirs {
                JudgeResult::Draw
            } else if mine > theirs {
                JudgeResult::Win(self.player)
            } else {
                JudgeResult::Win(self.player.spec_next())
            }
        } else {
            JudgeResult::Continue
        }
    }

    /// The bit of cell `co`.
    pub fn coordinate_to_bit(co: Coordinate) -> (r: BitBoard)
        requires
            co.0 < 8,
            co.1 < 8,
        ensures
            r == cell_bit(co.0 as int, co.1 as int),
            at_most_one_bit(r),
            r != 0,
    {
        let (i, j) = co;
        let s: u64 = (63 - i * 8 - j) as u64;
        proof {
            lemma_shift_single(s);
        }
        1u64 << s
    }

    /// Whether a cell of `put` is a legal move.
    pub fn is_possible(&self, put: BitBoard) -> (r: bool)
        ensures
            r == (put & self.legal() != 0),
    {
        (put & self.make_legal_board()) != 0
    }

    fn skip(&mut self)
        requires
            old(self).turn < usize::MAX,
        ensures
            *final(self) == old(self).passed(),
    {
        self.turn += 1;
        self.player = self.player.next();
        let p = self.player_board;
        self.player_board = self.opponent_board;
        self.opponent_board = p;
    }

    /// Plays `choice` for the mover. A pass is always taken; a disc must go on
    /// a cell of the board that is a legal move.
    pub fn update(&mut self, choice: Choice) -> (r: Result<JudgeResult, MoveError>)
        requires
            old(self).turn < usize::MAX,
        ensures
            match choice {
                Choice::Skip => r == Ok::<JudgeResult, MoveError>(JudgeResult::Continue)
                    && *final(self) == old(self).passed(),
                Choice::Coordinate((row, col)) => if row >= 8 || col >= 8 {
                    r == Err::<JudgeResult, MoveError>(MoveError::OutOfIndex) && *final(self)
                        == *old(self)
                } else if cell_bit(row as int, col as int) & old(self).legal() == 0 {
                    r == Err::<JudgeResult, MoveError>(MoveError::Impossible) && *final(self)
                        == *old(self)
                } else {
                    *final(self) == old(self).placed(cell_bit(row as int, col as int)) && r
                        == Ok::<JudgeResult, MoveError>(final(self).judged())
                },
            },
            old(self).wf() ==> final(self).wf(),
    {
        let co = match choice {
            Choice::Skip => {
                proof {
                    let p = self.player_board;
                    let o = self.opponent_board;
                    assert(p & o == 0 ==> o & p == 0) by (bit_vector);
                }
                self.skip();
                return Ok(JudgeResult::Continue);
            },
            Choice::Coordinate(co) => co,
        };
        let (i, j) = co;
        if !(i < 8 && j < 8) {
            return Err(MoveError::OutOfIndex);
        }
        let put = Board::coordinate_to_bit(co);
        if !self.is_possible(put) {
            return Err(MoveError::Impossible);
        }
        proof {
            if self.wf() {
                lemma_placed_facts(*self, put);
            }
        }
        self.reverse(put);
        let p = self.player_board;
        self.player_board = self.opponent_board;
        self.opponent_board = p;
        self.player = self.player.next();
        self.turn += 1;
        if self.is_game_finished() {
            let (mine, theirs) = self.calc_now_score();
            if mine == theirs {
                Ok(JudgeResult::Draw)
            } else if mine > theirs {
                Ok(JudgeResult::Win(self.player))
            } else {
                Ok(JudgeResult::Win(self.player.next()))
            }
        } else {
            Ok(JudgeResult::Continue)
        }
    }

    /// Turns over the discs that a mover disc on `put` flips, and places it.
    fn reverse(&mut self, put: BitBoard)
        ensures
            final(self).turn == old(self).turn,
            final(self).player == old(self).player,
            final(self).player_board == old(self).player_board ^ (put | flips(
                old(self).player_board,
                old(self).opponent_board,
                put,
            )),
            final(self).opponent_board == old(self).opponent_board ^ flips(
                old(self).player_board,
                old(self).opponent_board,
                put,
            ),
    {
        let mut rev: u64 = 0;
        let mut k: u64 = 0;
        while k < 8
            invariant
                k <= 8,
                *self == *old(self),
                rev == flips_upto(self.player_board, self.opponent_board, put, k as nat),
            decreases 8 - k,
        {
            let mut run: u64 = 0;
            let mut mask = Board::transfer(put, k);
            let mut steps: u64 = 0;
            while steps < 8 && mask != 0 && (mask & self.opponent_board) != 0
                invariant
                    k < 8,
                    steps <= 8,
                    walk(self.opponent_board, run, mask, k, (walk_limit() - steps) as nat) == walk(
                        self.opponent_board,
                        0,
                        spec_transfer(put, k),
                        k,
                        walk_limit(),
                    ),
                decreases 8 - steps,
            {
                run |= mask;
                mask = Board::transfer(mask, k);
                steps += 1;
            }
            assert(walk(self.opponent_board, run, mask, k, (walk_limit() - steps) as nat) == (
            run, mask));
            proof {
                let r0 = rev;
                assert(r0 | 0u64 == r0) by (bit_vector);
            }
            if (mask & self.player_board) != 0 {
                rev |= run;
            }
            k += 1;
        }
        self.player_board ^= put | rev;
        self.opponent_board ^= rev;
    }

    /// One step from each cell of `put` in direction `k`.
    fn transfer(put: BitBoard, k: u64) -> (r: BitBoard)
        requires
            k < 8,
        ensures
            r == spec_transfer(put, k),
    {
        match k {
            0 => (put << 8u64) & 0xffffffffffffff00,
            1 => (put << 7u64) & 0x7f7f7f7f7f7f7f00,
            2 => (put >> 1u64) & 0x7f7f7f7f7f7f7f7f,
            3 => (put >> 9u64) & 0x007f7f7f7f7f7f7f,
            4 => (put >> 8u64) & 0x00ffffffffffffff,
            5 => (put >> 7u64) & 0x00fefefefefefefe,
            6 => (put << 1u64) & 0xfefefefefefefefe,
            _ => (put << 9u64) & 0xfefefefefefefe00,
        }
    }

    /// The mover must pass: it has no legal move and the other side has one.
    pub fn is_skip(&self) -> (r: bool)
        ensures
            r == self.spec_is_skip(),
    {
        let player_legal_board = self.make_legal_board();
        let swapped = Board {
            turn: 0,
            player: Player::Black,
            player_board: self.opponent_board,
            opponent_board: self.player_board,
        };
        let opponent_legal_board = swapped.make_legal_board();
        player_legal_board == 0 && opponent_legal_board != 0
    }

    /// Neither side has a legal move.
    pub fn is_game_finished(&self) -> (r: bool)
        ensures
            r == self.spec_is_game_finished(),
    {
        let player_legal_board = self.make_legal_board();
        let swapped = Board {
            turn: 0,
            player: Player::Black,
            player_board: self.opponent_board,
            opponent_board: self.player_board,
        };
        let opponent_legal_board = swapped.make_legal_board();
        player_legal_board == 0 && opponent_legal_board == 0
    }

    /// The disc counts of the mover and of the other side.
    pub fn calc_now_score(&self) -> (r: (u32, u32))
        ensures
            r.0 == popcount(self.player_board),
            r.1 == popcount(self.opponent_board),
    {
        (count_ones(self.player_board), count_ones(self.opponent_board))
    }
}

/// Cells map to bits one to one: each cell is one bit, `63 - 8 * row - col`,
/// and two different cells have different bits.
pub proof fn lemma_cell_bits_distinct(r1: int, c1: int, r2: int, c2: int)
    requires
        0 <= r1 < 8,
        0 <= c1 < 8,
        0 <= r2 < 8,
        0 <= c2 < 8,
    ensures
        cell_bit(r1, c1) == 1u64 << ((63 - 8 * r1 - c1) as u64),
        popcount(cell_bit(r1, c1)) == 1,
        (r1, c1) != (r2, c2) ==> cell_bit(r1, c1) != cell_bit(r2, c2),
{
    let s1 = (63 - 8 * r1 - c1) as u64;
    let s2 = (63 - 8 * r2 - c2) as u64;
    lemma_popcount_single(s1);
    if (r1, c1) != (r2, c2) {
        assert(s1 != s2);
        assert(s1 < 64 && s2 < 64 && s1 != s2 ==> 1u64 << s1 != 1u64 << s2) by (bit_vector);
    }
}

/// In the starting position the mover may play exactly the four cells
/// (2, 3), (3, 2), (4, 5) and (5, 4).
pub proof fn lemma_opening_moves()
    ensures
        Board::opening().legal() == 0x0000102004080000,
        Board::opening().legal() == cell_bit(2, 3) | cell_bit(3, 2) | cell_bit(4, 5) | cell_bit(
            5,
            4,
        ),
{
    assert(legal_moves(0x0000000810000000, 0x0000001008000000) == 0x0000102004080000)
        by (bit_vector);
    assert((1u64 << 44u64) | (1u64 << 37u64) | (1u64 << 26u64) | (1u64 << 19u64)
        == 0x0000102004080000u64) by (bit_vector);
}

/// A legal disc on a well-formed board lands on an empty cell and turns over
/// opponent discs only, and the board stays well formed.
pub proof fn lemma_placed_facts(b: Board, put: u64)
    requires
        b.wf(),
        at_most_one_bit(put),
        put & b.legal() != 0,
    ensures
        put & (b.player_board | b.opponent_board) == 0,
        flips(b.player_board, b.opponent_board, put) & b.opponent_board == flips(
            b.player_board,
            b.opponent_board,
            put,
        ),
        b.placed(put).wf(),
        b.placed(put).player_board | b.placed(put).opponent_board == b.player_board
            | b.opponent_board | put,
{
    let p = b.player_board;
    let o = b.opponent_board;
    let l = b.legal();
    lemma_legal_blank(p, o);
    assert(put & (p | o) == 0) by (bit_vector)
        requires
            put & ((put - 1) as u64) == 0,
            put & l != 0,
            l & (p | o) == 0,
    ;
    lemma_flips_within(p, o, put, 8);
    let f = flips(p, o, put);
    assert((o ^ f) & (p ^ (put | f)) == 0 && (o ^ f) | (p ^ (put | f)) == p | o | put)
        by (bit_vector)
        requires
            p & o == 0,
            f & o == f,
            put & (p | o) == 0,
    ;
}

/// After a legal disc on `(row, col)` the mover owns one disc more than before
/// plus the turned ones, the other side loses the turned ones, and the board
/// holds one disc more.
pub proof fn lemma_move_counts(b: Board, row: int, col: int)
    requires
        b.wf(),
        0 <= row < 8,
        0 <= col < 8,
        cell_bit(row, col) & b.legal() != 0,
    ensures
        ({
            let put = cell_bit(row, col);
            let f = flips(b.player_board, b.opponent_board, put);
            let n = b.placed(put);
            &&& f & put == 0
            &&& popcount(n.opponent_board) == popcount(b.player_board) + 1 + popcount(f)
            &&& popcount(n.player_board) + popcount(f) == popcount(b.opponent_board)
            &&& popcount(n.player_board) + popcount(n.opponent_board) == popcount(b.player_board)
                + popcount(b.opponent_board) + 1
        }),
{
    let s = (63 - 8 * row - col) as u64;
    let put = cell_bit(row, col);
    lemma_shift_single(s);
    lemma_popcount_single(s);
    lemma_placed_facts(b, put);
    let p = b.player_board;
    let o = b.opponent_board;
    let f = flips(p, o, put);
    assert(f & put == 0 && p & put == 0 && (p | put) & f == 0 && p ^ (put | f) == (p | put) | f
        && (o ^ f) & f == 0 && (o ^ f) | f == o) by (bit_vector)
        requires
            p & o == 0,
            f & o == f,
            put & (p | o) == 0,
    ;
    lemma_popcount_disjoint_union(p, put);
    lemma_popcount_disjoint_union(p | put, f);
    lemma_popcount_disjoint_union(o ^ f, f);
}

/// What is left of the game: two for each empty cell, one more when the mover
/// cannot move. Every move or pass that lets play go on lowers it.
pub open spec fn progress(b: Board) -> nat {
    (2 * (64 - popcount(b.player_board | b.opponent_board)) + if b.legal() == 0 {
        1int
    } else {
        0int
    }) as nat
}

/// On a well-formed board, a forced pass or a legal disc lowers the progress
/// measure and keeps the board well formed; the measure is at most 129.
pub proof fn lemma_progress(b: Board, row: int, col: int)
    requires
        b.wf(),
    ensures
        b.spec_is_skip() ==> b.passed().wf() && progress(b.passed()) < progress(b),
        0 <= row < 8 && 0 <= col < 8 && cell_bit(row, col) & b.legal() != 0 ==> b.placed(
            cell_bit(row, col),
        ).wf() && progress(b.placed(cell_bit(row, col))) < progress(b),
        progress(b) <= 129,
{
    let p = b.player_board;
    let o = b.opponent_board;
    lemma_count_below_bound(p | o, 64);
    assert(o | p == p | o && o & p == 0) by (bit_vector)
        requires
            p & o == 0,
    ;
    if 0 <= row < 8 && 0 <= col < 8 && cell_bit(row, col) & b.legal() != 0 {
        let put = cell_bit(row, col);
        lemma_shift_single((63 - 8 * row - col) as u64);
        lemma_popcount_single((63 - 8 * row - col) as u64);
        lemma_placed_facts(b, put);
        let n = b.placed(put);
        assert((p | o) & put == 0) by (bit_vector)
            requires
                put & (p | o) == 0,
        ;
        lemma_popcount_disjoint_union(p | o, put);
        lemma_count_below_bound(n.player_board | n.opponent_board, 64);
    }
}


} // verus!
