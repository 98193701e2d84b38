//! An Othello engine on bitboards, a phase-aware evaluator with alpha-beta
//! search, and an evolutionary trainer for the evaluator's weights.
//!
//! - [`board`]: the game state as two role-relative bitboards, legal-move
//!   generation by ray fills, move application and the end-of-game rules.
//! - [`cpu`]: genomes of four weight tables, the static evaluator, the
//!   negamax search with alpha-beta cut-offs, move choice, whole games
//!   between two genomes, and the crossover and mutation operators.
//! - [`tournament`]: a population trained generation by generation.
//! - [`bits`]: counting the cells of a bitboard.
//! - [`random`]: the draws taken from rand's `StdRng`.
//!
//! Design choices:
//! - The evaluator scores mover discs with plus their class weight and
//!   opponent discs with minus it, and adds the mobility weight once per
//!   legal move.
//! - Selection is by round robin in brackets of eight, ranked by wins with
//!   ties to the earlier member; the best three breed.
//! - Mutation is all or nothing per genome: with the mutation probability a
//!   random genome is added to it gene by gene, wrapping around.
//! - Probabilities are integers, in parts per million.
//! - Scores are `i64` and bitboards `u64`.

pub mod bits;
pub mod board;
pub mod cpu;
pub mod random;
pub mod tournament;
