use flowshop::chromosome::Chromosome;
use flowshop::crossover::bandit::{Qlearning, Q_ZERO};
use flowshop::crossover::XTYPE;
use flowshop::crowding::DTYPE;
use flowshop::ga::population::{
    best_index, check_bred, check_evaluated, insert_sorted, is_ascending, is_evaluated,
    sort_population,
};
use flowshop::instance::Instance;
use flowshop::makespan::Makespan;
use flowshop::mutation::MTYPE;
use flowshop::options::{Construction, Options};
use flowshop::permutation::check_permutation;
use flowshop::mutation::{Greedy, Mutation};
use flowshop::replacement::{
    always_keep, mutate_by, replace_by, Mutate, NoReplacement, Random, Replacement, GCH, RTYPE,
};
use rand::rngs::StdRng;
use rand::SeedableRng;

fn test_instance() -> Instance {
    Instance {
        jobs: 5,
        stages: 2,
        machines: vec![2, 1],
        processing_times: vec![
            vec![71, 98],
            vec![51, 54],
            vec![0, 49],
            vec![94, 28],
            vec![29, 90],
        ],
        setup_times: vec![
            vec![
                vec![1, 2, 3, 4, 5],
                vec![1, 2, 3, 4, 5],
                vec![1, 2, 3, 4, 5],
                vec![1, 2, 3, 4, 5],
                vec![5, 2, 3, 4, 5],
            ],
            vec![
                vec![1, 2, 3, 4, 5],
                vec![1, 2, 7, 4, 5],
                vec![1, 2, 3, 4, 5],
                vec![1, 2, 3, 4, 5],
                vec![3, 2, 3, 4, 5],
            ],
        ],
    }
}

fn big_instance() -> Instance {
    let jobs: u32 = 12;
    let processing_times: Vec<Vec<u32>> = (0..jobs)
        .map(|j| (0..2).map(|s| 10 + (j * 37 + s * 53 + j * j * 11) % 90).collect())
        .collect();
    let setup_times: Vec<Vec<Vec<u32>>> = (0..2)
        .map(|s| {
            (0..jobs)
                .map(|i| (0..jobs).map(|j| 1 + (i * 7 + j * 3 + s * 5) % 9).collect())
                .collect()
        })
        .collect();
    Instance {
        jobs,
        stages: 2,
        machines: vec![2, 1],
        processing_times,
        setup_times,
    }
}

fn takes_blocks(kind: &XTYPE) -> bool {
    matches!(kind, XTYPE::BCBX | XTYPE::Random | XTYPE::QLearning)
}

fn small_options() -> Options {
    Options {
        pop_size: 12,
        iterations: 15,
        elitism: 2,
        k_nearest: 3,
        mutation_prob: 200,
        ..Options::default()
    }
}

fn check_population(ga: &flowshop::ga::GA, size: usize) {
    assert_eq!(ga.population.len(), size);
    let mut engine = Makespan::new(&ga.instance);
    for c in ga.population.iter() {
        assert!(check_permutation(&c.jobs, ga.instance.jobs));
        assert!(!c.updated);
        assert_eq!(c.makespan, Some(engine.makespan(&c.jobs).0));
    }
}

fn best(ga: &flowshop::ga::GA) -> u32 {
    ga.population.iter().map(|c| c.makespan.unwrap()).min().unwrap()
}

#[test]
fn default_options_are_usable() {
    let o = Options::default();
    assert!(o.check());
    assert_eq!(o.pop_size, 150);
    assert_eq!(o.elitism, 2);
    assert_eq!(o.keep_best, 800);
    assert_eq!(o.xover_prob, 500);
    let bad = Options {
        elitism: 150,
        ..Options::default()
    };
    assert!(!bad.check());
    let bad = Options {
        keep_best: 1001,
        ..Options::default()
    };
    assert!(!bad.check());
    // The neighbourhood counts only where crowding runs in steady state.
    let wide = Options {
        k_nearest: 200,
        ..Options::default()
    };
    for (perform_crowding, steady_state) in [(false, false), (false, true), (true, false)] {
        let o = Options {
            perform_crowding,
            steady_state,
            ..wide.clone()
        };
        assert!(o.check());
    }
    let o = Options {
        perform_crowding: true,
        steady_state: true,
        ..wide.clone()
    };
    assert!(!o.check());
    let o = Options {
        perform_crowding: true,
        steady_state: true,
        k_nearest: 0,
        ..Options::default()
    };
    assert!(!o.check());
    let o = Options {
        perform_crowding: true,
        steady_state: true,
        k_nearest: 150,
        ..Options::default()
    };
    assert!(o.check());
}

#[test]
fn build_gives_evaluated_population() {
    for construction in [
        Construction::Random,
        Construction::MDDR(500),
        Construction::NEH,
    ] {
        let options = Options {
            construction,
            ..small_options()
        };
        let ga = options.build(test_instance(), StdRng::seed_from_u64(123));
        check_population(&ga, 12);
        assert_eq!(ga.best_makespan.len(), 1);
        assert_eq!(ga.best_makespan[0].makespan, best(&ga));
        assert_eq!(ga.iteration, 0);
    }
}

#[test]
fn generations_keep_the_best() {
    for xover_type in [
        XTYPE::SJ2OX,
        XTYPE::SB2OX,
        XTYPE::BCBX,
        XTYPE::PMX,
        XTYPE::Random,
        XTYPE::QLearning,
    ] {
        for perform_crowding in [false, true] {
            let options = Options {
                xover_type,
                perform_crowding,
                distance_metric: DTYPE::DeviationDistance,
                mutation_type: MTYPE::Random,
                ..small_options()
            };
            let instance = if takes_blocks(&options.xover_type) {
                big_instance()
            } else {
                test_instance()
            };
            let mut ga = options.build(instance, StdRng::seed_from_u64(7));
            let mut before = best(&ga);
            for round in 0..5 {
                ga.generation();
                check_population(&ga, 12);
                assert!(best(&ga) <= before);
                before = best(&ga);
                assert_eq!(ga.iteration, round + 1);
            }
            ga.run();
            check_population(&ga, 12);
            assert!(best(&ga) <= before);
            assert_eq!(ga.best_makespan.last().unwrap().makespan, best(&ga));
        }
    }
}

#[test]
fn steady_state_keeps_order_and_best() {
    for perform_crowding in [false, true] {
        let options = Options {
            steady_state: true,
            perform_crowding,
            local_search: true,
            approx_calc: 20,
            non_improving_iterations: 3,
            allways_keep: 500,
            rtype: RTYPE::Mutate,
            ..small_options()
        };
        let mut ga = options.build(test_instance(), StdRng::seed_from_u64(11));
        let before = best(&ga);
        ga.run_steady_state();
        check_population(&ga, 12);
        assert!(best(&ga) <= before);
        for pair in ga.population.windows(2) {
            assert!(pair[0].makespan.unwrap() <= pair[1].makespan.unwrap());
        }
        if !perform_crowding {
            for (i, a) in ga.population.iter().enumerate() {
                for b in ga.population.iter().skip(i + 1) {
                    if a.makespan != b.makespan {
                        assert!(a.jobs != b.jobs);
                    }
                }
            }
        }
    }
}

#[test]
fn tournament_returns_a_member() {
    let mut ga = small_options().build(test_instance(), StdRng::seed_from_u64(3));
    for _ in 0..30 {
        let winner = ga.tournament();
        assert!(!winner.updated);
        assert!(ga
            .population
            .iter()
            .any(|c| c.jobs == winner.jobs && c.makespan == winner.makespan));
    }
}

#[test]
fn sorting_and_inserting() {
    let mut pop: Vec<Chromosome> = [30u32, 10, 20, 10]
        .iter()
        .enumerate()
        .map(|(i, m)| Chromosome::new_with_makespan(vec![i as u32], *m))
        .collect();
    assert_eq!(best_index(&pop), 1);
    sort_population(&mut pop);
    let order: Vec<(u32, u32)> = pop.iter().map(|c| (c.jobs[0], c.makespan.unwrap())).collect();
    assert_eq!(order, vec![(1, 10), (3, 10), (2, 20), (0, 30)]);
    insert_sorted(&mut pop, Chromosome::new_with_makespan(vec![9], 20));
    let order: Vec<u32> = pop.iter().map(|c| c.jobs[0]).collect();
    assert_eq!(order, vec![1, 3, 2, 9, 0]);
}

#[test]
fn replacements_keep_the_front() {
    let instance = test_instance();
    let mut rng = StdRng::seed_from_u64(5);
    let mut engine = Makespan::new(&instance);
    assert_eq!(always_keep(10, 500), 5);
    assert_eq!(always_keep(7, 300), 2);
    assert_eq!(always_keep(7, 1000), 7);
    let fresh = |rng: &mut StdRng| -> Vec<Chromosome> {
        (0..6).map(|_| Chromosome::new(&instance, rng)).collect()
    };
    let mut pop = fresh(&mut rng);
    let front: Vec<Vec<u32>> = pop.iter().take(3).map(|c| c.jobs.clone()).collect();
    Random::replace(&mut pop, 500, &mut engine, &mut rng);
    GCH::replace(&mut pop, 500, &mut engine, &mut rng);
    assert!(pop[3..].iter().all(|c| !c.updated && c.makespan.is_some()));
    Mutate::replace(&mut pop, 500, &mut engine, &mut rng);
    NoReplacement::replace(&mut pop, 500, &mut engine, &mut rng);
    assert_eq!(pop.len(), 6);
    for (c, jobs) in pop.iter().zip(front.iter()) {
        assert_eq!(&c.jobs, jobs);
    }
    assert!(pop.iter().all(|c| check_permutation(&c.jobs, 5)));
}

#[test]
fn bandit_learns() {
    let instance = test_instance();
    let mut engine = Makespan::new(&instance);
    let mut rng = StdRng::seed_from_u64(9);
    let mut p1 = Chromosome::from(vec![0, 1, 2, 3, 4]);
    let mut p2 = Chromosome::from(vec![4, 3, 2, 1, 0]);
    p1.makespan(&mut engine);
    p2.makespan(&mut engine);
    let mut bandit = Qlearning::new(200, 250);
    assert_eq!(bandit.q_values, vec![Q_ZERO; 4]);
    assert_eq!(bandit.favourite(), 3);
    let (c1, c2) = bandit.evaluate(&p1, &p2, Some(2), &mut engine, &mut rng, 1);
    let child = c1.makespan.unwrap().min(c2.makespan.unwrap()) as u64;
    let parent = 334u64;
    let expected = (800 * Q_ZERO + 200 * ((child + 4_294_967_296 - parent) * 1000)) / 1000;
    assert_eq!(bandit.q_values[1], expected);
    assert_eq!(bandit.q_values[0], Q_ZERO);
    for _ in 0..20 {
        let (a, b) = bandit.crossover(&p1, &p2, Some(2), &mut engine, &mut rng);
        assert!(check_permutation(&a.jobs, 5) && check_permutation(&b.jobs, 5));
        assert!(a.makespan.is_some() && b.makespan.is_some());
    }
}

#[test]
fn mutation_follows_its_probability() {
    let never = Options {
        mutation_prob: 0,
        ..small_options()
    };
    let mut ga = never.build(test_instance(), StdRng::seed_from_u64(2));
    ga.select();
    ga.mutate();
    assert_eq!(ga.mating_pool.len(), 10);
    assert!(ga.mating_pool.iter().all(|c| !c.updated));

    let always = Options {
        mutation_prob: 1000,
        mutation_type: MTYPE::Swap,
        ..small_options()
    };
    let mut ga = always.build(test_instance(), StdRng::seed_from_u64(2));
    ga.select();
    let before: Vec<Vec<u32>> = ga.mating_pool.iter().map(|c| c.jobs.clone()).collect();
    ga.mutate();
    assert!(ga.mating_pool.iter().all(|c| c.updated));
    for (c, jobs) in ga.mating_pool.iter().zip(before.iter()) {
        let same = c.jobs.iter().zip(jobs.iter()).filter(|(a, b)| a == b).count();
        assert_eq!(same, 3);
    }
    ga.makespan();
    assert!(ga.mating_pool.iter().all(|c| !c.updated && c.makespan.is_some()));
}

#[test]
fn recombination_follows_its_probability() {
    let never = Options {
        xover_prob: 0,
        ..small_options()
    };
    let mut ga = never.build(test_instance(), StdRng::seed_from_u64(4));
    ga.select();
    let before: Vec<Vec<u32>> = ga.mating_pool.iter().map(|c| c.jobs.clone()).collect();
    let count = ga.makespan.count;
    ga.recombine();
    let after: Vec<Vec<u32>> = ga.mating_pool.iter().map(|c| c.jobs.clone()).collect();
    assert_eq!(before, after);
    assert!(ga.mating_pool.iter().all(|c| !c.updated));
    assert_eq!(ga.makespan.count, count);

    // Order crossover of every pair: the children are marked as changed,
    // and each keeps the place of every job on which its parents agree.
    let always = Options {
        xover_prob: 1000,
        xover_type: XTYPE::SJ2OX,
        pop_size: 13,
        ..small_options()
    };
    let mut ga = always.build(test_instance(), StdRng::seed_from_u64(4));
    ga.select();
    assert_eq!(ga.mating_pool.len(), 11);
    let before: Vec<Vec<u32>> = ga.mating_pool.iter().map(|c| c.jobs.clone()).collect();
    ga.recombine();
    for j in (0..10).step_by(2) {
        let (c0, c1) = (&ga.mating_pool[j], &ga.mating_pool[j + 1]);
        assert!(c0.updated && c0.makespan.is_none());
        assert!(c1.updated && c1.makespan.is_none());
        for place in 0..5 {
            if before[j][place] == before[j + 1][place] {
                assert_eq!(c0.jobs[place], before[j][place]);
                assert_eq!(c1.jobs[place], before[j][place]);
            }
        }
    }
    // The last chromosome has no partner and stays.
    assert_eq!(ga.mating_pool[10].jobs, before[10]);
    assert!(!ga.mating_pool[10].updated);

    // With crowding every survivor is a parent or an evaluated child.
    let crowded = Options {
        xover_prob: 1000,
        xover_type: XTYPE::PMX,
        perform_crowding: true,
        distance_metric: DTYPE::DeviationDistance,
        ..small_options()
    };
    let mut ga = crowded.build(test_instance(), StdRng::seed_from_u64(4));
    ga.select();
    let before: Vec<Option<u32>> = ga.mating_pool.iter().map(|c| c.makespan).collect();
    ga.recombine();
    let mut engine = Makespan::new(&ga.instance);
    for (j, c) in ga.mating_pool.iter().enumerate() {
        assert!(!c.updated);
        assert_eq!(c.makespan, Some(engine.makespan(&c.jobs).0));
        let pair = j - j % 2;
        let worse = before[pair].max(before[pair + 1]);
        assert!(c.makespan <= worse);
    }
}

#[test]
fn one_pair_is_crossed() {
    let options = Options {
        xover_type: XTYPE::BCBX,
        ..small_options()
    };
    let mut ga = options.build(big_instance(), StdRng::seed_from_u64(6));
    ga.select();
    let before: Vec<Vec<u32>> = ga.mating_pool.iter().map(|c| c.jobs.clone()).collect();
    ga.cross_pair(2);
    let mut engine = Makespan::new(&ga.instance);
    for (i, c) in ga.mating_pool.iter().enumerate() {
        if i != 2 && i != 3 {
            assert_eq!(c.jobs, before[i]);
        } else {
            // The block exchange evaluates its children.
            assert!(check_permutation(&c.jobs, 12));
            assert!(!c.updated);
            assert_eq!(c.makespan, Some(engine.makespan(&c.jobs).0));
        }
    }
}

#[test]
fn local_search_follows_its_switch() {
    let off = Options {
        local_search: false,
        mutation_prob: 1000,
        mutation_type: MTYPE::Shift,
        ..small_options()
    };
    let mut ga = off.build(test_instance(), StdRng::seed_from_u64(8));
    ga.select();
    ga.mutate();
    let before: Vec<Vec<u32>> = ga.mating_pool.iter().map(|c| c.jobs.clone()).collect();
    let count = ga.makespan.count;
    ga.search();
    assert!(ga.mating_pool.iter().all(|c| c.updated));
    let after: Vec<Vec<u32>> = ga.mating_pool.iter().map(|c| c.jobs.clone()).collect();
    assert_eq!(before, after);
    assert_eq!(ga.makespan.count, count);

    let on = Options {
        local_search: true,
        approx_calc: 10,
        mutation_prob: 1000,
        mutation_type: MTYPE::Shift,
        ..small_options()
    };
    let mut ga = on.build(test_instance(), StdRng::seed_from_u64(8));
    ga.select();
    ga.mutate();
    let mut engine = Makespan::new(&ga.instance);
    let before: Vec<u32> = ga.mating_pool.iter().map(|c| engine.makespan(&c.jobs).0).collect();
    ga.search();
    for (c, old) in ga.mating_pool.iter().zip(before.iter()) {
        assert!(!c.updated);
        assert_eq!(c.makespan, Some(engine.makespan(&c.jobs).0));
        assert!(c.makespan.unwrap() <= *old);
        assert!(check_permutation(&c.jobs, 5));
    }
}

#[test]
fn mutations_by_kind() {
    let instance = test_instance();
    let mut engine = Makespan::new(&instance);
    let mut rng = StdRng::seed_from_u64(12);
    let is_shift = |before: &Vec<u32>, after: &Vec<u32>| -> bool {
        (0..5).any(|from| {
            (0..5).any(|to| {
                let mut s = before.clone();
                let job = s.remove(from);
                s.insert(to, job);
                &s == after
            })
        })
    };
    for _ in 0..20 {
        let start = Chromosome::new_with_makespan(vec![3, 0, 4, 1, 2], 77);
        let mut c = start.clone();
        mutate_by(MTYPE::Shift, &mut c, &mut engine, &mut rng);
        assert!(is_shift(&start.jobs, &c.jobs));
        assert!(c.updated);
        assert_eq!(c.makespan, Some(77));
        assert_eq!(engine.count, 0);

        let mut c = start.clone();
        mutate_by(MTYPE::Swap, &mut c, &mut engine, &mut rng);
        let moved = c.jobs.iter().zip(start.jobs.iter()).filter(|(a, b)| a != b).count();
        assert_eq!(moved, 2);
        assert!(c.updated);
        assert_eq!(c.makespan, Some(77));

        // A tenth of five jobs is no job: a reversal leaves the order.
        let mut c = start.clone();
        mutate_by(MTYPE::Reverse, &mut c, &mut engine, &mut rng);
        assert_eq!(c.jobs, start.jobs);
        assert!(c.updated);
        assert_eq!(engine.count, 0);
    }
    let start = Chromosome::from(vec![3, 0, 4, 1, 2]);
    let before = engine.makespan(&start.jobs).0;
    let count = engine.count;
    let mut c = start.clone();
    Greedy::apply(&mut c, &mut engine, &mut rng);
    // Every one of the five places is tried once.
    assert_eq!(engine.count, count + 5);
    assert!(is_shift(&start.jobs, &c.jobs));
    assert!(!c.updated);
    assert!(c.makespan.unwrap() <= before);
    let mut c = start.clone();
    mutate_by(MTYPE::Random, &mut c, &mut engine, &mut rng);
    assert!(check_permutation(&c.jobs, 5));
    assert!(c.updated || c.makespan == Some(engine.makespan(&c.jobs).0));
}

#[test]
fn replacements_by_kind() {
    let instance = test_instance();
    let mut rng = StdRng::seed_from_u64(21);
    let mut engine = Makespan::new(&instance);
    let evaluated = |engine: &mut Makespan, rng: &mut StdRng| -> Vec<Chromosome> {
        (0..8)
            .map(|_| {
                let mut c = Chromosome::new(&instance, rng);
                c.makespan(engine);
                c
            })
            .collect()
    };
    let jobs_of = |pop: &Vec<Chromosome>| -> Vec<Vec<u32>> {
        pop.iter().map(|c| c.jobs.clone()).collect()
    };

    let mut pop = evaluated(&mut engine, &mut rng);
    let before = jobs_of(&pop);
    let count = engine.count;
    replace_by(RTYPE::NoReplacement, &mut pop, 500, &mut engine, &mut rng);
    assert_eq!(jobs_of(&pop), before);
    assert!(pop.iter().all(|c| !c.updated));
    assert_eq!(engine.count, count);

    replace_by(RTYPE::Random, &mut pop, 500, &mut engine, &mut rng);
    assert_eq!(jobs_of(&pop)[..4], before[..4]);
    assert!(pop[..4].iter().all(|c| !c.updated));
    assert!(pop[4..].iter().all(|c| c.updated && c.makespan.is_none()));
    assert_eq!(engine.count, count);

    replace_by(RTYPE::GCH, &mut pop, 250, &mut engine, &mut rng);
    assert_eq!(jobs_of(&pop)[..2], before[..2]);
    for c in pop[2..].iter() {
        assert!(!c.updated);
        assert_eq!(c.makespan, Some(engine.makespan(&c.jobs).0));
    }

    // Four are kept; the next two are mutants of kept ones, the last two
    // random permutations.
    let mut pop = evaluated(&mut engine, &mut rng);
    let before = jobs_of(&pop);
    replace_by(RTYPE::Mutate, &mut pop, 500, &mut engine, &mut rng);
    assert_eq!(jobs_of(&pop)[..4], before[..4]);
    for c in pop[4..6].iter() {
        assert!(check_permutation(&c.jobs, 5));
        let close = before[..4].iter().any(|kept| {
            kept.iter().zip(c.jobs.iter()).filter(|(a, b)| a != b).count() <= 4
        });
        assert!(close);
        assert!(c.updated || c.makespan == Some(engine.makespan(&c.jobs).0));
    }
    assert!(pop[6..].iter().all(|c| c.updated && c.makespan.is_none()));

    // Where none is kept, all become random permutations.
    let mut pop = evaluated(&mut engine, &mut rng);
    Mutate::replace(&mut pop, 0, &mut engine, &mut rng);
    assert!(pop.iter().all(|c| c.updated && c.makespan.is_none()));
    assert!(pop.iter().all(|c| check_permutation(&c.jobs, 5)));
}

fn sorted_copy(pop: &[Chromosome]) -> Vec<(u32, Vec<u32>)> {
    let mut all: Vec<(u32, Vec<u32>)> =
        pop.iter().map(|c| (c.makespan.unwrap(), c.jobs.clone())).collect();
    all.sort();
    all
}

#[test]
fn generation_keeps_its_record() {
    for seed in 0..6 {
        let options = Options {
            non_improving_iterations: 1000,
            ..small_options()
        };
        let mut ga = options.build(test_instance(), StdRng::seed_from_u64(seed));
        for _ in 0..8 {
            let old_population = sorted_copy(&ga.population);
            let old_record = ga.best_makespan.clone();
            let old_counter = ga.non_improvement_counter;
            let old_iteration = ga.iteration;
            ga.generation();
            assert_eq!(ga.iteration, old_iteration + 1);
            // The mating pool holds the old population in order.
            let mid: Vec<Chromosome> = ga.mating_pool.clone();
            assert_eq!(mid.len(), 12);
            assert_eq!(sorted_copy(&mid), old_population);
            for pair in mid.windows(2) {
                assert!(pair[0].makespan.unwrap() <= pair[1].makespan.unwrap());
            }
            // The elite closes the new population.
            assert_eq!(ga.population.len(), 12);
            for e in 0..2 {
                assert_eq!(ga.population[10 + e].jobs, mid[e].jobs);
                assert_eq!(ga.population[10 + e].makespan, mid[e].makespan);
            }
            // The record and the count go by the best of the offspring.
            let lowest = ga.population[..10].iter().map(|c| c.makespan.unwrap()).min().unwrap();
            if lowest <= mid[0].makespan.unwrap() {
                assert_eq!(ga.non_improvement_counter, 0);
                assert_eq!(ga.best_makespan.len(), old_record.len() + 1);
                assert_eq!(ga.best_makespan[..old_record.len()], old_record[..]);
                let line = ga.best_makespan.last().unwrap();
                assert_eq!(line.iteration, old_iteration);
                assert_eq!(line.makespan, lowest);
                assert_eq!(line.evaluations, ga.makespan.count);
            } else {
                assert_eq!(ga.non_improvement_counter, old_counter + 1);
                assert_eq!(ga.best_makespan, old_record);
            }
        }
    }
}

#[test]
fn breeding_and_closing_make_a_generation() {
    let mut ga = small_options().build(test_instance(), StdRng::seed_from_u64(21));
    let old_population = sorted_copy(&ga.population);
    ga.breed();
    assert_eq!(ga.iteration, 0);
    assert_eq!(ga.best_makespan.len(), 1);
    assert_eq!(sorted_copy(&ga.population), old_population);
    for pair in ga.population.windows(2) {
        assert!(pair[0].makespan.unwrap() <= pair[1].makespan.unwrap());
    }
    assert_eq!(ga.mating_pool.len(), 10);
    let mut engine = Makespan::new(&ga.instance);
    for c in ga.mating_pool.iter() {
        assert!(!c.updated);
        assert_eq!(c.makespan, Some(engine.makespan(&c.jobs).0));
    }
    let kids: Vec<Vec<u32>> = ga.mating_pool.iter().map(|c| c.jobs.clone()).collect();
    let elite: Vec<Vec<u32>> = ga.population[..2].iter().map(|c| c.jobs.clone()).collect();
    ga.conclude();
    assert_eq!(ga.iteration, 1);
    let now: Vec<Vec<u32>> = ga.population.iter().map(|c| c.jobs.clone()).collect();
    assert_eq!(now[..10], kids[..]);
    assert_eq!(now[10..], elite[..]);
}

#[test]
fn stagnation_is_answered() {
    let options = Options {
        non_improving_iterations: 0,
        allways_keep: 500,
        rtype: RTYPE::Random,
        ..small_options()
    };
    let mut ga = options.build(test_instance(), StdRng::seed_from_u64(5));
    sort_population(&mut ga.population);
    let front: Vec<(u32, Vec<u32>)> = sorted_copy(&ga.population[..6]);
    ga.respond_to_stagnation();
    check_population(&ga, 12);
    for pair in ga.population.windows(2) {
        assert!(pair[0].makespan.unwrap() <= pair[1].makespan.unwrap());
    }
    // The kept half is still there.
    let now = sorted_copy(&ga.population);
    for kept in front.iter() {
        assert!(now.contains(kept));
    }

    let calm = Options {
        non_improving_iterations: 1000,
        ..small_options()
    };
    let mut ga = calm.build(test_instance(), StdRng::seed_from_u64(5));
    let before: Vec<Vec<u32>> = ga.population.iter().map(|c| c.jobs.clone()).collect();
    let count = ga.makespan.count;
    ga.respond_to_stagnation();
    let after: Vec<Vec<u32>> = ga.population.iter().map(|c| c.jobs.clone()).collect();
    assert_eq!(before, after);
    assert_eq!(ga.makespan.count, count);
}

#[test]
fn runs_close_the_record() {
    for steady_state in [false, true] {
        let options = Options {
            steady_state,
            iterations: 9,
            ..small_options()
        };
        let mut ga = options.build(test_instance(), StdRng::seed_from_u64(31));
        ga.generation();
        let old_record = ga.best_makespan.clone();
        let old_iteration = ga.iteration;
        if steady_state {
            ga.run_steady_state();
        } else {
            ga.run();
        }
        assert_eq!(ga.iteration, old_iteration + 9);
        assert!(ga.best_makespan.len() >= old_record.len() + 1);
        assert_eq!(ga.best_makespan[..old_record.len()], old_record[..]);
        let line = ga.best_makespan.last().unwrap();
        assert_eq!(line.iteration, ga.iteration);
        assert_eq!(line.makespan, best(&ga));
        assert_eq!(line.evaluations, ga.makespan.count);
    }
    // The count of generations stops at the top.
    let options = Options {
        iterations: 3,
        ..small_options()
    };
    let mut ga = options.build(test_instance(), StdRng::seed_from_u64(32));
    ga.iteration = usize::MAX - 1;
    ga.run();
    assert_eq!(ga.iteration, usize::MAX);
    assert_eq!(ga.best_makespan.last().unwrap().iteration, usize::MAX);
}

#[test]
fn steady_state_steps_keep_their_record() {
    for perform_crowding in [false, true] {
        let options = Options {
            steady_state: true,
            perform_crowding,
            non_improving_iterations: 1000,
            ..small_options()
        };
        let mut ga = options.build(test_instance(), StdRng::seed_from_u64(41));
        sort_population(&mut ga.population);
        for _ in 0..30 {
            let old_best = ga.population[0].makespan.unwrap();
            let old_record = ga.best_makespan.clone();
            let old_counter = ga.non_improvement_counter;
            let old_iteration = ga.iteration;
            ga.steady_state_step();
            assert_eq!(ga.iteration, old_iteration + 1);
            check_population(&ga, 12);
            for pair in ga.population.windows(2) {
                assert!(pair[0].makespan.unwrap() <= pair[1].makespan.unwrap());
            }
            if ga.best_makespan.len() > old_record.len() {
                assert_eq!(ga.best_makespan.len(), old_record.len() + 1);
                assert_eq!(ga.non_improvement_counter, 0);
                let line = ga.best_makespan.last().unwrap();
                assert_eq!(line.iteration, old_iteration);
                assert!(line.makespan < old_best);
                assert_eq!(line.evaluations, ga.makespan.count);
                assert_eq!(ga.population[0].makespan.unwrap(), line.makespan);
            } else {
                assert_eq!(ga.best_makespan, old_record);
                assert_eq!(ga.non_improvement_counter, old_counter + 1);
                assert_eq!(ga.population[0].makespan.unwrap(), old_best);
            }
        }
    }
}

#[test]
fn children_compete_for_places() {
    let options = Options {
        steady_state: true,
        perform_crowding: false,
        ..small_options()
    };
    let mut ga = options.build(test_instance(), StdRng::seed_from_u64(51));
    sort_population(&mut ga.population);
    for _ in 0..20 {
        let (c1, c2) = ga.breed_pair();
        let mut engine = Makespan::new(&ga.instance);
        assert_eq!(c1.makespan, Some(engine.makespan(&c1.jobs).0));
        assert_eq!(c2.makespan, Some(engine.makespan(&c2.jobs).0));
        let old_record = ga.best_makespan.len();
        let old_best = ga.population[0].makespan.unwrap();
        let lower = c1.makespan.unwrap().min(c2.makespan.unwrap());
        ga.note_pair(&c1, &c2);
        if lower < old_best {
            assert_eq!(ga.non_improvement_counter, 0);
            assert_eq!(ga.best_makespan.len(), old_record + 1);
            assert_eq!(ga.best_makespan.last().unwrap().makespan, lower);
        } else {
            assert_eq!(ga.best_makespan.len(), old_record);
        }
        for c in [c1, c2] {
            let before = sorted_copy(&ga.population);
            let worst = ga.population.last().unwrap().clone();
            let known = ga.population.iter().any(|o| o.jobs == c.jobs);
            let child = (c.makespan.unwrap(), c.jobs.clone());
            ga.replace_with(c);
            let after = sorted_copy(&ga.population);
            if child.0 < worst.makespan.unwrap() && !known {
                let mut expected = before.clone();
                let at = expected
                    .iter()
                    .position(|o| *o == (worst.makespan.unwrap(), worst.jobs.clone()))
                    .unwrap();
                expected.remove(at);
                expected.push(child);
                expected.sort();
                assert_eq!(after, expected);
            } else {
                assert_eq!(after, before);
            }
        }
        ga.advance();
    }
    assert_eq!(ga.iteration, 20);
}

#[test]
fn crowding_by_lot() {
    let options = Options {
        perform_crowding: true,
        distance_metric: DTYPE::DeviationDistance,
        steady_state: true,
        ..small_options()
    };
    let mut ga = options.build(test_instance(), StdRng::seed_from_u64(61));
    ga.select();
    let before: Vec<Vec<u32>> = ga.mating_pool.iter().map(|c| c.jobs.clone()).collect();
    let (c0, c1) = ga.pair_children(4);
    let mut engine = Makespan::new(&ga.instance);
    assert_eq!(c0.makespan, Some(engine.makespan(&c0.jobs).0));
    assert_eq!(c1.makespan, Some(engine.makespan(&c1.jobs).0));
    let still: Vec<Vec<u32>> = ga.mating_pool.iter().map(|c| c.jobs.clone()).collect();
    assert_eq!(before, still);
    let straight = flowshop::crowding::pairs_straight(
        &[c0.clone(), c1.clone()],
        &ga.mating_pool[4..6],
        DTYPE::DeviationDistance,
    );
    let (first, second) = if straight { (c0.clone(), c1.clone()) } else { (c1.clone(), c0.clone()) };
    ga.settle_pair(4, c0.clone(), c1.clone(), true, false);
    assert_eq!(ga.mating_pool[4].jobs, first.jobs);
    assert_eq!(ga.mating_pool[5].jobs, before[5]);
    for (i, c) in ga.mating_pool.iter().enumerate() {
        if i != 4 {
            assert_eq!(c.jobs, before[i]);
        }
    }
    ga.settle_pair(4, c0, c1, false, true);
    assert_eq!(ga.mating_pool[4].jobs, first.jobs);
    let _ = second;

    // In steady state the child takes the place of its rival.
    sort_population(&mut ga.population);
    let (child, _) = ga.breed_pair();
    let at = ga.rival_of(&child);
    assert!(at < 12);
    let mut expected = sorted_copy(&ga.population);
    let rival = (ga.population[at].makespan.unwrap(), ga.population[at].jobs.clone());
    let place = expected.iter().position(|o| *o == rival).unwrap();
    expected.remove(place);
    expected.push((child.makespan.unwrap(), child.jobs.clone()));
    expected.sort();
    ga.put_in_place(at, child);
    assert_eq!(sorted_copy(&ga.population), expected);
    for pair in ga.population.windows(2) {
        assert!(pair[0].makespan.unwrap() <= pair[1].makespan.unwrap());
    }
}

#[test]
fn states_are_checked() {
    let options = Options {
        mutation_prob: 1000,
        mutation_type: MTYPE::Shift,
        ..small_options()
    };
    let ga = options.clone().build(test_instance(), StdRng::seed_from_u64(71));
    assert!(ga.check());

    let mut broken = options.clone().build(test_instance(), StdRng::seed_from_u64(71));
    broken.population[3].makespan = Some(broken.population[3].makespan.unwrap() + 1);
    assert!(!broken.check());
    let mut broken = options.clone().build(test_instance(), StdRng::seed_from_u64(71));
    broken.population[0].updated = true;
    assert!(!broken.check());
    let mut broken = options.clone().build(test_instance(), StdRng::seed_from_u64(71));
    broken.population[5].jobs = vec![0, 1, 2, 3, 3];
    assert!(!broken.check());
    let mut broken = options.clone().build(test_instance(), StdRng::seed_from_u64(71));
    broken.population.pop();
    assert!(!broken.check());
    let mut broken = options.clone().build(test_instance(), StdRng::seed_from_u64(71));
    broken.options.keep_best = 1001;
    assert!(!broken.check());
    let mut broken = options.clone().build(test_instance(), StdRng::seed_from_u64(71));
    broken.options.xover_type = XTYPE::BCBX;
    assert!(!broken.check());
    let mut broken = options.clone().build(test_instance(), StdRng::seed_from_u64(71));
    broken.bandit.q_values.push(0);
    assert!(!broken.check());
    let mut broken = options.clone().build(test_instance(), StdRng::seed_from_u64(71));
    broken.instance.processing_times[0][0] = 72;
    assert!(!broken.check());
    let mut broken = options.clone().build(test_instance(), StdRng::seed_from_u64(71));
    broken.bandit.epsilon = 1001;
    assert!(!broken.bandit.check());
    assert!(!broken.check());

    // The mating pool, step by step.
    let mut ga = options.build(test_instance(), StdRng::seed_from_u64(71));
    ga.select();
    assert!(check_evaluated(&ga.mating_pool, &ga.instance));
    assert!(check_bred(&ga.mating_pool, &ga.instance));
    ga.mutate();
    assert!(!check_evaluated(&ga.mating_pool, &ga.instance));
    assert!(check_bred(&ga.mating_pool, &ga.instance));
    let mut engine = Makespan::new(&ga.instance);
    assert!(!is_evaluated(&ga.mating_pool[0], &mut engine));
    assert!(is_evaluated(&ga.population[0], &mut engine));
    ga.mating_pool[1].updated = false;
    ga.mating_pool[1].makespan = None;
    assert!(!check_bred(&ga.mating_pool, &ga.instance));

    let mut a = Chromosome::from(vec![0, 1, 2, 3, 4]);
    let mut b = Chromosome::from(vec![4, 3, 2, 1, 0]);
    let c = Chromosome::from(vec![2, 3, 4, 1, 0]);
    a.makespan = Some(10);
    b.makespan = Some(11);
    assert!(is_ascending(&vec![a.clone(), b.clone()]));
    assert!(is_ascending(&vec![a.clone(), a.clone(), b.clone()]));
    assert!(!is_ascending(&vec![b.clone(), a.clone()]));
    assert!(!is_ascending(&vec![a, b, c]));
    assert!(is_ascending(&vec![]));
}

#[test]
fn places_are_settled_by_lot() {
    let options = Options {
        perform_crowding: true,
        steady_state: true,
        distance_metric: DTYPE::DeviationDistance,
        ..small_options()
    };
    let mut ga = options.build(test_instance(), StdRng::seed_from_u64(81));
    sort_population(&mut ga.population);
    let mut seen_both = (false, false);
    for round in 0..40 {
        let (child, _) = ga.breed_pair();
        let at = ga.rival_of(&child);
        let before = sorted_copy(&ga.population);
        let rival = (ga.population[at].makespan.unwrap(), ga.population[at].jobs.clone());
        let entry = (child.makespan.unwrap(), child.jobs.clone());
        let rival_wins = round % 2 == 0;
        ga.settle_place(at, child, rival_wins);
        let after = sorted_copy(&ga.population);
        if rival_wins && rival.0 != entry.0 {
            assert_eq!(after, before);
            seen_both.0 = true;
        } else {
            let mut expected = before.clone();
            let place = expected.iter().position(|o| *o == rival).unwrap();
            expected.remove(place);
            expected.push(entry);
            expected.sort();
            assert_eq!(after, expected);
            seen_both.1 = true;
        }
        assert!(is_ascending(&ga.population));
        assert!(ga.check());
    }
    assert!(seen_both.0 && seen_both.1);
}
