//! The population trainer: round-robin brackets of eight, ranking by wins,
//! crossover of the top three, and mutation, one generation at a time.
use vstd::prelude::*;

use rand::rngs::StdRng;

use crate::board::{Board, JudgeResult, Player};
use crate::cpu::{
    built_from, draw_mutation, eval_cpu, game_plies, is_mutation_of, mutate_with, play_out,
    random_cross, two_point_cross, CPU, RATE_SCALE, WEIGHT_LEN,
};
use crate::random::{random_seed, seeded_rng};

verus! {

/// Genomes per round-robin bracket.
pub const BRACKET: usize = 8;

/// Genomes per worker: eight brackets.
pub const WORKER_SHARE: usize = 64;

/// Black's side takes the game between `black` and `white` (a draw counts
/// for Black).
pub open spec fn black_takes(black: CPU, white: CPU, depth: nat) -> bool {
    play_out(black, white, depth, Board::opening(), game_plies()).1 != JudgeResult::Win(
        Player::White,
    )
}

/// The games that member `i` of the bracket `g` takes against members
/// `0..n`: against a lower index it plays Black, against a higher one White.
pub open spec fn wins_against(g: Seq<CPU>, depth: nat, i: int, n: nat) -> nat
    decreases n,
{
    if n == 0 {
        0
    } else {
        let j = n - 1;
        wins_against(g, depth, i, (n - 1) as nat) + if (j < i && black_takes(g[i], g[j], depth))
            || (j > i && !black_takes(g[j], g[i], depth)) {
            1nat
        } else {
            0nat
        }
    }
}

/// Member `a` ranks above member `b`: more wins, or as many and earlier.
pub open spec fn outranks(wins: Seq<u32>, a: int, b: int) -> bool {
    wins[a] > wins[b] || (wins[a] == wins[b] && a < b)
}

/// `top` lists the three best-ranked members of a bracket with `wins`, best
/// first: the order of a stable sort by wins, descending.
pub open spec fn is_top_three(wins: Seq<u32>, top: Seq<usize>) -> bool {
    &&& top.len() == 3
    &&& forall|t: int| 0 <= t < 3 ==> top[t] < BRACKET
    &&& top[0] != top[1] && top[0] != top[2] && top[1] != top[2]
    &&& forall|x: int| 0 <= x < BRACKET && x != top[0] ==> outranks(wins, top[0] as int, x)
    &&& forall|x: int|
        0 <= x < BRACKET && x != top[0] && x != top[1] ==> outranks(wins, top[1] as int, x)
    &&& forall|x: int|
        0 <= x < BRACKET && x != top[0] && x != top[1] && x != top[2] ==> outranks(
            wins,
            top[2] as int,
            x,
        )
}

/// In bracket `g`, member `t` ranks above member `x`: more wins, or as many
/// and earlier.
pub open spec fn ranks_above(g: Seq<CPU>, depth: nat, t: int, x: int) -> bool {
    let wt = wins_against(g, depth, t, BRACKET as nat);
    let wx = wins_against(g, depth, x, BRACKET as nat);
    wt > wx || (wt == wx && t < x)
}

/// `a`, `b` and `c` are the three best-ranked members of bracket `g`, best
/// first: the order of a stable sort by wins, descending.
pub open spec fn ranked_top(g: Seq<CPU>, depth: nat, a: int, b: int, c: int) -> bool {
    &&& 0 <= a < BRACKET && 0 <= b < BRACKET && 0 <= c < BRACKET
    &&& a != b && a != c && b != c
    &&& forall|x: int| 0 <= x < BRACKET && x != a ==> #[trigger] ranks_above(g, depth, a, x)
    &&& forall|x: int| 0 <= x < BRACKET && x != a && x != b ==> #[trigger] ranks_above(g, depth, b, x)
    &&& forall|x: int|
        0 <= x < BRACKET && x != a && x != b && x != c ==> #[trigger] ranks_above(g, depth, c, x)
}

/// `r` is the offspring of parents ranked `a`, `b`, `c`: `a` as it is, the
/// two-point splices of (a, b), (a, c), (b, c), the uniform splices of the
/// same pairs, and a genome laid out from fresh draws.
pub open spec fn bred_block(a: CPU, b: CPU, c: CPU, r: Seq<CPU>) -> bool {
    &&& r.len() == BRACKET
    &&& r[0] == a
    &&& exists|i: int, j: int| 0 <= i <= j < WEIGHT_LEN && #[trigger] r[1].is_two_point_of(a, b, i, j)
    &&& exists|i: int, j: int| 0 <= i <= j < WEIGHT_LEN && #[trigger] r[2].is_two_point_of(a, c, i, j)
    &&& exists|i: int, j: int| 0 <= i <= j < WEIGHT_LEN && #[trigger] r[3].is_two_point_of(b, c, i, j)
    &&& exists|m: u64| #[trigger] r[4].is_masked_of(a, b, m)
    &&& exists|m: u64| #[trigger] r[5].is_masked_of(a, c, m)
    &&& exists|m: u64| #[trigger] r[6].is_masked_of(b, c, m)
    &&& exists|d: Seq<i8>| #[trigger] built_from(r[7], d)
}

/// `r` is the offspring of bracket `g` by its ranking.
pub open spec fn breeds(g: Seq<CPU>, depth: nat, r: Seq<CPU>) -> bool {
    exists|a: int, b: int, c: int|
        #[trigger] ranked_top(g, depth, a, b, c) && bred_block(g[a], g[b], g[c], r)
}

/// The block of `o` at `s` is the offspring of the bracket of `p` at `s`.
pub open spec fn bracket_bred(p: Seq<CPU>, depth: nat, o: Seq<CPU>, s: int) -> bool {
    breeds(p.subrange(s, s + BRACKET), depth, o.subrange(s, s + BRACKET))
}

/// `o` is a generation bred from `p`, bracket by bracket, before mutation.
pub open spec fn generation_from(p: Seq<CPU>, depth: nat, o: Seq<CPU>) -> bool {
    &&& o.len() == p.len()
    &&& forall|s: int|
        0 <= s < p.len() && s % (BRACKET as int) == 0 ==> #[trigger] bracket_bred(p, depth, o, s)
}

/// Genome `i` of `r` is genome `i` of `o` after a mutation at rate `rate`
/// with some draws.
pub open spec fn mutated_from(r: Seq<CPU>, o: Seq<CPU>, rate: u64, i: int) -> bool {
    exists|u: u64, delta: CPU| u < RATE_SCALE && #[trigger] is_mutation_of(r[i], o[i], rate, u, delta)
}

/// Bracket `k` of the share at `start` of `cpus` breeds block `k` of `r`.
pub open spec fn share_block(cpus: Seq<CPU>, start: int, depth: nat, r: Seq<CPU>, k: int) -> bool {
    breeds(
        cpus.subrange(start + BRACKET * k, start + BRACKET * k + BRACKET),
        depth,
        r.subrange(BRACKET * k, BRACKET * k + BRACKET),
    )
}

/// The winner of the game `a` (Black) against `b` (White): `a` on a draw.
pub open spec fn contest_winner(a: CPU, b: CPU, depth: nat) -> CPU {
    if black_takes(a, b, depth) {
        a
    } else {
        b
    }
}

/// The survivor of folding `cpus[0..n]` pairwise through games, the
/// survivor so far playing Black.
pub open spec fn champion_of(cpus: Seq<CPU>, depth: nat, n: nat) -> CPU
    decreases n,
{
    if n <= 1 {
        cpus[0]
    } else {
        contest_winner(champion_of(cpus, depth, (n - 1) as nat), cpus[n - 1], depth)
    }
}

/// The wins of each member of the bracket `cpus[start..start + 8]` in a
/// round robin where each pair plays once, the later member as Black.
pub fn bracket_wins(cpus: &Vec<CPU>, start: usize, depth: usize) -> (r: [u32; BRACKET])
    requires
        start + BRACKET <= cpus.len(),
        1 <= depth,
        depth + 2 * game_plies() < usize::MAX,
    ensures
        forall|i: int|
            0 <= i < BRACKET ==> r@[i] == wins_against(
                cpus@.subrange(start as int, start + BRACKET),
                depth as nat,
                i,
                BRACKET as nat,
            ),
{
    let ghost g = cpus@.subrange(start as int, start + BRACKET);
    let mut win_score = [0u32; BRACKET];
    let mut i: usize = 0;
    while i < BRACKET
        invariant
            i <= BRACKET,
            start + BRACKET <= cpus.len(),
            1 <= depth,
            depth + 2 * game_plies() < usize::MAX,
            g == cpus@.subrange(start as int, start + BRACKET),
            forall|x: int| 0 <= x < i ==> win_score@[x] == wins_against(g, depth as nat, x, i as nat),
            forall|x: int| i <= x < BRACKET ==> win_score@[x] == 0,
            forall|x: int| 0 <= x < BRACKET ==> win_score@[x] <= i,
        decreases BRACKET - i,
    {
        let mut j: usize = 0;
        while j < i
            invariant
                j <= i < BRACKET,
                start + BRACKET <= cpus.len(),
                1 <= depth,
                depth + 2 * game_plies() < usize::MAX,
                g == cpus@.subrange(start as int, start + BRACKET),
                forall|x: int|
                    0 <= x < j ==> win_score@[x] == wins_against(g, depth as nat, x, (i + 1) as nat),
                forall|x: int|
                    j <= x < i ==> win_score@[x] == wins_against(g, depth as nat, x, i as nat),
                win_score@[i as int] == wins_against(g, depth as nat, i as int, j as nat),
                forall|x: int| i < x < BRACKET ==> win_score@[x] == 0,
                forall|x: int| 0 <= x < j ==> win_score@[x] <= i + 1,
                forall|x: int| j <= x < i ==> win_score@[x] <= i,
                win_score@[i as int] <= j,
            decreases i - j,
        {
            let left = &cpus[start + i];
            let right = &cpus[start + j];
            let (_, black_discs, white_discs) = eval_cpu(left, right, depth);
            assert(g[i as int] == *left && g[j as int] == *right);
            if black_discs >= white_discs {
                win_score[i] = win_score[i] + 1;
            } else {
                win_score[j] = win_score[j] + 1;
            }
            j += 1;
        }
        assert(wins_against(g, depth as nat, i as int, (i + 1) as nat) == wins_against(
            g,
            depth as nat,
            i as int,
            i as nat,
        ));
        i += 1;
    }
    win_score
}

/// The best-ranked member of a bracket with `wins`, leaving out `a` and `b`
/// (`BRACKET` leaves out none).
fn strongest_except(wins: &[u32; BRACKET], a: usize, b: usize) -> (r: usize)
    requires
        a <= BRACKET,
        b <= BRACKET,
    ensures
        r < BRACKET,
        r != a,
        r != b,
        forall|x: int| 0 <= x < BRACKET && x != a && x != b && x != r ==> outranks(wins@, r as int, x),
{
    let mut best: usize = BRACKET;
    let mut x: usize = 0;
    while x < BRACKET
        invariant
            x <= BRACKET,
            best <= BRACKET,
            a <= BRACKET,
            b <= BRACKET,
            best == BRACKET ==> x <= 2 && (x >= 1 ==> (a == 0 || b == 0)) && (x >= 2 ==> (a == 1
                || b == 1)),
            best < BRACKET ==> best < x && best != a && best != b,
            best < BRACKET ==> forall|y: int|
                0 <= y < x && y != a && y != b && y != best ==> outranks(wins@, best as int, y),
        decreases BRACKET - x,
    {
        let ghost old_best = best;
        if x != a && x != b && (best == BRACKET || wins[x] > wins[best]) {
            best = x;
        }
        proof {
            assert forall|y: int|
                0 <= y < x + 1 && y != a && y != b && y != best implies outranks(
                wins@,
                best as int,
                y,
            ) by {
                if y < x && old_best < BRACKET && y != old_best {
                    assert(outranks(wins@, old_best as int, y));
                }
            }
        }
        x += 1;
    }
    best
}

/// The three best-ranked members of a bracket with `wins`, best first; ties
/// go to the earlier member.
pub fn rank_top_three(wins: &[u32; BRACKET]) -> (r: [usize; 3])
    ensures
        is_top_three(wins@, r@),
{
    let first = strongest_except(wins, BRACKET, BRACKET);
    let second = strongest_except(wins, first, BRACKET);
    let third = strongest_except(wins, first, second);
    let r = [first, second, third];
    assert(r@[0] == first && r@[1] == second && r@[2] == third);
    r
}

/// The offspring of one bracket, from its members `cpus[start..start + 8]`
/// ranked `top`: the best as it is, three two-point splices and three
/// uniform splices of the pairs among the top three, and a random genome.
pub fn breed_bracket(cpus: &Vec<CPU>, start: usize, top: &[usize; 3], rng: &mut StdRng) -> (r: Vec<CPU>)
    requires
        start + BRACKET <= cpus.len(),
        forall|t: int| 0 <= t < 3 ==> top@[t] < BRACKET,
    ensures
        bred_block(cpus@[start + top@[0]], cpus@[start + top@[1]], cpus@[start + top@[2]], r@),
{
    let a = &cpus[start + top[0]];
    let b = &cpus[start + top[1]];
    let c = &cpus[start + top[2]];
    let ab = two_point_cross(a, b, rng);
    let ac = two_point_cross(a, c, rng);
    let bc = two_point_cross(b, c, rng);
    let uab = random_cross(a, b, rng);
    let uac = random_cross(a, c, rng);
    let ubc = random_cross(b, c, rng);
    let fresh = CPU::new_random(rng);
    let out: Vec<CPU> = vec![*a, ab, ac, bc, uab, uac, ubc, fresh];
    assert(out@[0] == *a && out@[1] == ab && out@[2] == ac && out@[3] == bc && out@[4] == uab
        && out@[5] == uac && out@[6] == ubc && out@[7] == fresh);
    out
}

/// One worker's part of a generation: the offspring of the eight brackets
/// of `cpus[start..start + 64]`, bracket by bracket, drawing from a
/// generator seeded with `seed`.
pub fn evolve_share(cpus: &Vec<CPU>, start: usize, depth: usize, seed: [u8; 32]) -> (r: Vec<CPU>)
    requires
        start + WORKER_SHARE <= cpus.len(),
        1 <= depth,
        depth + 2 * game_plies() < usize::MAX,
    ensures
        r.len() == WORKER_SHARE,
        forall|k: int|
            0 <= k < BRACKET ==> #[trigger] share_block(cpus@, start as int, depth as nat, r@, k),
{
    let mut rng = seeded_rng(seed);
    let mut out: Vec<CPU> = Vec::with_capacity(WORKER_SHARE);
    let mut k: usize = 0;
    while k < BRACKET
        invariant
            k <= BRACKET,
            start + WORKER_SHARE <= cpus.len(),
            1 <= depth,
            depth + 2 * game_plies() < usize::MAX,
            out.len() == BRACKET * k,
            forall|k2: int|
                0 <= k2 < k ==> #[trigger] share_block(cpus@, start as int, depth as nat, out@, k2),
        decreases BRACKET - k,
    {
        let s = start + BRACKET * k;
        let wins = bracket_wins(cpus, s, depth);
        let top = rank_top_three(&wins);
        let part = breed_bracket(cpus, s, &top, &mut rng);
        let ghost before = out@;
        let mut p: usize = 0;
        while p < BRACKET
            invariant
                p <= BRACKET,
                part.len() == BRACKET,
                before.len() == BRACKET * k,
                out.len() == BRACKET * k + p,
                forall|q: int| 0 <= q < BRACKET * k ==> out@[q] == before[q],
                forall|q: int| 0 <= q < p ==> out@[BRACKET * k + q] == part@[q],
            decreases BRACKET - p,
        {
            out.push(part[p]);
            p += 1;
        }
        proof {
            let g = cpus@.subrange(s as int, s + BRACKET);
            let (a, b, c) = (top@[0] as int, top@[1] as int, top@[2] as int);
            assert forall|x: int| 0 <= x < BRACKET && x != a implies #[trigger] ranks_above(
                g,
                depth as nat,
                a,
                x,
            ) by {
                assert(outranks(wins@, a, x));
            }
            assert forall|x: int| 0 <= x < BRACKET && x != a && x != b implies #[trigger] ranks_above(
                g,
                depth as nat,
                b,
                x,
            ) by {
                assert(outranks(wins@, b, x));
            }
            assert forall|x: int|
                0 <= x < BRACKET && x != a && x != b && x != c implies #[trigger] ranks_above(
                g,
                depth as nat,
                c,
                x,
            ) by {
                assert(outranks(wins@, c, x));
            }
            assert(ranked_top(g, depth as nat, a, b, c));
            assert(out@.subrange(BRACKET * k as int, BRACKET * k + BRACKET) =~= part@);
            assert(g[a] == cpus@[s + a] && g[b] == cpus@[s + b] && g[c] == cpus@[s + c]);
            assert(share_block(cpus@, start as int, depth as nat, out@, k as int));
            assert forall|k2: int| 0 <= k2 < k implies #[trigger] share_block(
                cpus@,
                start as int,
                depth as nat,
                out@,
                k2,
            ) by {
                assert(share_block(cpus@, start as int, depth as nat, before, k2));
                assert(BRACKET * k2 + BRACKET <= BRACKET * k) by (nonlinear_arith)
                    requires
                        0 <= k2 < k,
                ;
                assert(out@.subrange(BRACKET * k2, BRACKET * k2 + BRACKET) =~= before.subrange(
                    BRACKET * k2,
                    BRACKET * k2 + BRACKET,
                ));
            }
        }
        k += 1;
    }
    out
}

/// The survivor of folding `cpus` pairwise through games of `depth`-ply
/// searches: the survivor so far plays Black and keeps its place on a draw.
pub fn champion(cpus: &Vec<CPU>, depth: usize) -> (r: CPU)
    requires
        cpus.len() >= 1,
        1 <= depth,
        depth + 2 * game_plies() < usize::MAX,
    ensures
        r == champion_of(cpus@, depth as nat, cpus.len() as nat),
{
    let mut best = cpus[0];
    let mut i: usize = 1;
    while i < cpus.len()
        invariant
            1 <= i <= cpus.len(),
            1 <= depth,
            depth + 2 * game_plies() < usize::MAX,
            best == champion_of(cpus@, depth as nat, i as nat),
        decreases cpus.len() - i,
    {
        let (winner, _, _) = eval_cpu(&best, &cpus[i], depth);
        best = *winner;
        i += 1;
    }
    best
}

/// A population of genomes and its generation number.
#[derive(Debug)]
pub struct Tournament {
    pub cpus: Vec<CPU>,
    pub generation: usize,
}

impl Tournament {
    /// `tournament_size` random genomes, generation 1.
    pub fn new_random(tournament_size: usize, rng: &mut StdRng) -> (r: Tournament)
        ensures
            r.cpus.len() == tournament_size,
            r.generation == 1,
    {
        let mut cpus: Vec<CPU> = Vec::with_capacity(tournament_size);
        let mut i: usize = 0;
        while i < tournament_size
            invariant
                i <= tournament_size,
                cpus.len() == i,
            decreases tournament_size - i,
        {
            cpus.push(CPU::new_random(rng));
            i += 1;
        }
        Tournament { cpus, generation: 1 }
    }

    /// One seed per worker, drawn in worker order from the master generator.
    pub fn worker_seeds(&self, rng: &mut StdRng) -> (r: Vec<[u8; 32]>)
        ensures
            r.len() == self.cpus.len() / WORKER_SHARE,
    {
        let workers = self.cpus.len() / WORKER_SHARE;
        let mut seeds: Vec<[u8; 32]> = Vec::with_capacity(workers);
        let mut w: usize = 0;
        while w < workers
            invariant
                w <= workers,
                seeds.len() == w,
            decreases workers - w,
        {
            seeds.push(random_seed(rng));
            w += 1;
        }
        seeds
    }

    /// Replaces the population with `offspring`, each mutated with
    /// probability `mutate_rate` parts per million, and counts one
    /// generation. Each genome takes its draws in turn.
    pub fn install_generation(&mut self, offspring: Vec<CPU>, mutate_rate: u64, rng: &mut StdRng)
        requires
            offspring.len() == old(self).cpus.len(),
            old(self).generation < usize::MAX,
        ensures
            final(self).cpus.len() == old(self).cpus.len(),
            final(self).generation == old(self).generation + 1,
            forall|i: int|
                0 <= i < offspring.len() ==> #[trigger] mutated_from(
                    final(self).cpus@,
                    offspring@,
                    mutate_rate,
                    i,
                ),
            mutate_rate == 0 ==> final(self).cpus@ == offspring@,
    {
        let mut us: Vec<u64> = Vec::with_capacity(offspring.len());
        let mut deltas: Vec<CPU> = Vec::with_capacity(offspring.len());
        let mut i: usize = 0;
        while i < offspring.len()
            invariant
                i <= offspring.len(),
                us.len() == i,
                deltas.len() == i,
                forall|q: int| 0 <= q < i ==> us@[q] < RATE_SCALE,
            decreases offspring.len() - i,
        {
            let (u, delta) = draw_mutation(mutate_rate, rng);
            us.push(u);
            deltas.push(delta);
            i += 1;
        }
        let mut cpus = offspring;
        mutate_all(&mut cpus, mutate_rate, &us, &deltas);
        proof {
            assert forall|i: int| 0 <= i < offspring.len() implies #[trigger] mutated_from(
                cpus@,
                offspring@,
                mutate_rate,
                i,
            ) by {
                assert(is_mutation_of(cpus@[i], offspring@[i], mutate_rate, us@[i], deltas@[i]));
            }
            if mutate_rate == 0 {
                assert forall|i: int| 0 <= i < offspring.len() implies cpus@[i] == offspring@[i] by {
                    assert(is_mutation_of(cpus@[i], offspring@[i], mutate_rate, us@[i], deltas@[i]));
                }
                assert(cpus@ =~= offspring@);
            }
        }
        self.cpus = cpus;
        self.generation = self.generation + 1;
    }

    /// One generation: every worker's share of 64 genomes plays its brackets
    /// and breeds from its own seed, then the offspring, in worker order, are
    /// mutated and replace the population. The size stays the same, the
    /// generation number goes up by one, and each bracket's block of eight
    /// holds its offspring (mutated at the given rate).
    pub fn upgrade_generation(&mut self, mutate_rate: u64, depth: usize, rng: &mut StdRng)
        requires
            old(self).cpus.len() % WORKER_SHARE == 0,
            old(self).generation < usize::MAX,
            1 <= depth,
            depth + 2 * game_plies() < usize::MAX,
        ensures
            final(self).cpus.len() == old(self).cpus.len(),
            final(self).generation == old(self).generation + 1,
            exists|o: Seq<CPU>|
                #[trigger] generation_from(old(self).cpus@, depth as nat, o) && forall|i: int|
                    0 <= i < o.len() ==> #[trigger] mutated_from(final(self).cpus@, o, mutate_rate, i),
            mutate_rate == 0 ==> generation_from(old(self).cpus@, depth as nat, final(self).cpus@),
    {
        let seeds = self.worker_seeds(rng);
        let mut offspring: Vec<CPU> = Vec::with_capacity(self.cpus.len());
        let mut w: usize = 0;
        while w < seeds.len()
            invariant
                w <= seeds.len(),
                seeds.len() == self.cpus.len() / WORKER_SHARE,
                self.cpus.len() % WORKER_SHARE == 0,
                offspring.len() == WORKER_SHARE * w,
                1 <= depth,
                depth + 2 * game_plies() < usize::MAX,
                forall|s: int|
                    0 <= s < offspring.len() && s % (BRACKET as int) == 0 ==> #[trigger] bracket_bred(
                        self.cpus@,
                        depth as nat,
                        offspring@,
                        s,
                    ),
            decreases seeds.len() - w,
        {
            assert(WORKER_SHARE * w + WORKER_SHARE <= self.cpus.len()) by (nonlinear_arith)
                requires
                    w < seeds.len(),
                    seeds.len() == self.cpus.len() / WORKER_SHARE,
                    self.cpus.len() % WORKER_SHARE == 0,
            ;
            let share = evolve_share(&self.cpus, WORKER_SHARE * w, depth, seeds[w]);
            let ghost before = offspring@;
            let mut p: usize = 0;
            while p < share.len()
                invariant
                    p <= share.len(),
                    share.len() == WORKER_SHARE,
                    before.len() == WORKER_SHARE * w,
                    offspring.len() == WORKER_SHARE * w + p,
                    forall|q: int| 0 <= q < before.len() ==> offspring@[q] == before[q],
                    forall|q: int| 0 <= q < p ==> offspring@[WORKER_SHARE * w + q] == share@[q],
                decreases share.len() - p,
            {
                offspring.push(share[p]);
                p += 1;
            }
            proof {
                let base = WORKER_SHARE * w;
                assert forall|s: int|
                    0 <= s < offspring.len() && s % (BRACKET as int) == 0 implies #[trigger] bracket_bred(
                    self.cpus@,
                    depth as nat,
                    offspring@,
                    s,
                ) by {
                    if s < base {
                        assert(bracket_bred(self.cpus@, depth as nat, before, s));
                        assert(s + BRACKET <= base) by (nonlinear_arith)
                            requires
                                s % (BRACKET as int) == 0,
                                base == WORKER_SHARE * w,
                                0 <= s < base,
                        ;
                        assert(offspring@.subrange(s, s + BRACKET) =~= before.subrange(
                            s,
                            s + BRACKET,
                        ));
                    } else {
                        let k = (s - base) / (BRACKET as int);
                        assert(BRACKET * k == s - base && 0 <= k < BRACKET) by (nonlinear_arith)
                            requires
                                k == (s - base) / (BRACKET as int),
                                s % (BRACKET as int) == 0,
                                base == WORKER_SHARE * w,
                                base <= s < base + WORKER_SHARE,
                        ;
                        assert(share_block(self.cpus@, base as int, depth as nat, share@, k));
                        assert(offspring@.subrange(s, s + BRACKET) =~= share@.subrange(
                            BRACKET * k,
                            BRACKET * k + BRACKET,
                        ));
                    }
                }
            }
            w += 1;
        }
        assert(offspring.len() == self.cpus.len()) by (nonlinear_arith)
            requires
                offspring.len() == WORKER_SHARE * seeds.len(),
                seeds.len() == self.cpus.len() / WORKER_SHARE,
                self.cpus.len() % WORKER_SHARE == 0,
        ;
        let ghost parents = self.cpus@;
        let ghost born = offspring@;
        assert(generation_from(parents, depth as nat, born));
        self.install_generation(offspring, mutate_rate, rng);
        proof {
            assert(generation_from(parents, depth as nat, born));
        }
    }
}

/// Mutates each genome of `cpus` with the matching draw of `us` and random
/// genome of `deltas`.
pub fn mutate_all(cpus: &mut Vec<CPU>, mutate_rate: u64, us: &Vec<u64>, deltas: &Vec<CPU>)
    requires
        us.len() == old(cpus).len(),
        deltas.len() == old(cpus).len(),
    ensures
        final(cpus).len() == old(cpus).len(),
        forall|i: int|
            0 <= i < old(cpus).len() ==> #[trigger] is_mutation_of(
                final(cpus)@[i],
                old(cpus)@[i],
                mutate_rate,
                us@[i],
                deltas@[i],
            ),
{
    let ghost start = cpus@;
    let mut i: usize = 0;
    while i < cpus.len()
        invariant
            i <= cpus.len(),
            cpus.len() == start.len(),
            us.len() == start.len(),
            deltas.len() == start.len(),
            forall|q: int| i <= q < cpus.len() ==> cpus@[q] == start[q],
            forall|q: int|
                0 <= q < i ==> #[trigger] is_mutation_of(
                    cpus@[q],
                    start[q],
                    mutate_rate,
                    us@[q],
                    deltas@[q],
                ),
        decreases cpus.len() - i,
    {
        let mut cpu = cpus[i];
        mutate_with(&mut cpu, mutate_rate, us[i], &deltas[i]);
        cpus.set(i, cpu);
        i += 1;
    }
}

} // verus!
