use bit_othello::cpu::CPU;
use bit_othello::tournament::{bracket_wins, evolve_share, rank_top_three, Tournament};
use rand::rngs::StdRng;
use rand::SeedableRng;

#[test]
fn ranking_is_stable_by_wins() {
    assert_eq!(rank_top_three(&[1, 5, 3, 5, 0, 3, 7, 4]), [6, 1, 3]);
    assert_eq!(rank_top_three(&[2, 2, 2, 2, 2, 2, 2, 2]), [0, 1, 2]);
    assert_eq!(rank_top_three(&[0, 0, 0, 0, 0, 0, 1, 1]), [6, 7, 0]);
}

#[test]
fn new_population() {
    let mut rng = StdRng::seed_from_u64(1);
    let t = Tournament::new_random(64, &mut rng);
    assert_eq!(t.cpus.len(), 64);
    assert_eq!(t.generation, 1);
}

#[test]
fn bracket_round_robin_totals() {
    let mut rng = StdRng::seed_from_u64(2);
    let t = Tournament::new_random(8, &mut rng);
    let wins = bracket_wins(&t.cpus, 0, 1);
    assert_eq!(wins.iter().sum::<u32>(), 28);
    assert!(wins.iter().all(|&w| w <= 7));
}

#[test]
fn share_keeps_bracket_champions() {
    let mut rng = StdRng::seed_from_u64(4);
    let t = Tournament::new_random(64, &mut rng);
    let out = evolve_share(&t.cpus, 0, 1, [7u8; 32]);
    assert_eq!(out.len(), 64);
    for k in 0..8 {
        let wins = bracket_wins(&t.cpus, 8 * k, 1);
        let top = rank_top_three(&wins);
        assert_eq!(out[8 * k], t.cpus[8 * k + top[0]]);
    }
}

#[test]
fn generation_advance_keeps_size() {
    let mut rng = StdRng::seed_from_u64(8);
    let mut t = Tournament::new_random(64, &mut rng);
    t.upgrade_generation(25_000, 1, &mut rng);
    assert_eq!(t.cpus.len(), 64);
    assert_eq!(t.generation, 2);
}

#[test]
fn generation_advance_is_deterministic() {
    let start = Tournament::new_random(64, &mut StdRng::seed_from_u64(21));
    let mut a = Tournament { cpus: start.cpus.clone(), generation: start.generation };
    let mut b = Tournament { cpus: start.cpus.clone(), generation: start.generation };
    a.upgrade_generation(25_000, 1, &mut StdRng::seed_from_u64(99));
    b.upgrade_generation(25_000, 1, &mut StdRng::seed_from_u64(99));
    assert_eq!(a.cpus, b.cpus);
    assert_eq!(a.generation, b.generation);
    let unchanged: Vec<CPU> = start.cpus.clone();
    assert_ne!(a.cpus, unchanged);
}

#[test]
fn install_without_mutation_keeps_offspring() {
    let mut rng = StdRng::seed_from_u64(13);
    let mut t = Tournament::new_random(16, &mut rng);
    let offspring: Vec<CPU> = (0..16).map(|_| CPU::new_alpha()).collect();
    t.install_generation(offspring.clone(), 0, &mut rng);
    assert_eq!(t.cpus, offspring);
    assert_eq!(t.generation, 2);
}

#[test]
fn worker_seeds_one_per_share() {
    let mut rng = StdRng::seed_from_u64(17);
    let t = Tournament::new_random(128, &mut rng);
    assert_eq!(t.worker_seeds(&mut rng).len(), 2);
}

#[test]
fn generation_without_mutation_keeps_bracket_leaders() {
    let start = Tournament::new_random(64, &mut StdRng::seed_from_u64(31));
    let mut t = Tournament { cpus: start.cpus.clone(), generation: start.generation };
    t.upgrade_generation(0, 1, &mut StdRng::seed_from_u64(32));
    for k in 0..8 {
        let wins = bracket_wins(&start.cpus, 8 * k, 1);
        let top = rank_top_three(&wins);
        let (a, b, c) = (start.cpus[8 * k + top[0]], start.cpus[8 * k + top[1]], start.cpus[8 * k + top[2]]);
        assert_eq!(t.cpus[8 * k], a);
        let pairs = [(a, b), (a, c), (b, c), (a, b), (a, c), (b, c)];
        for (n, (p, q)) in pairs.iter().enumerate() {
            let child = t.cpus[8 * k + 1 + n];
            for g in 0..11 {
                assert!(child.stage1[g] == p.stage1[g] || child.stage1[g] == q.stage1[g]);
                assert!(child.stage4[g] == p.stage4[g] || child.stage4[g] == q.stage4[g]);
            }
        }
    }
}

#[test]
fn mutate_all_follows_draws() {
    let base = vec![CPU::new_alpha(), CPU::new_alpha()];
    let mut cpus = base.clone();
    let delta = CPU { stage1: [1; 11], stage2: [1; 11], stage3: [1; 11], stage4: [1; 11] };
    bit_othello::tournament::mutate_all(&mut cpus, 10, &vec![10, 9], &vec![delta, delta]);
    assert_eq!(cpus[0], base[0]);
    assert_eq!(cpus[1].stage1[0], 121);
    assert_eq!(cpus[1].stage2[1], -11);
}

#[test]
fn champion_folds_through_games() {
    let mut rng = StdRng::seed_from_u64(41);
    let t = Tournament::new_random(4, &mut rng);
    let mut best = t.cpus[0];
    for c in t.cpus.iter().skip(1) {
        best = *bit_othello::cpu::eval_cpu(&best, c, 1).0;
    }
    assert_eq!(bit_othello::tournament::champion(&t.cpus, 1), best);
    assert_eq!(bit_othello::tournament::champion(&t.cpus[..1].to_vec(), 1), t.cpus[0]);
}
