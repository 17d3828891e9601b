use flowshop::chromosome::Chromosome;
use flowshop::gch::{construct, Constructor, GCH};
use flowshop::instance::Instance;
use flowshop::iterated_greedy::{
    destruct_construct, is_terminated, iterated_greedy, iterative_improvement_insertion,
    remove_fresh, remove_random, settle_round, Options, OptionsGrid,
};
use flowshop::local_search::ls_ig;
use flowshop::makespan::Makespan;
use flowshop::neh::NEH;
use flowshop::permutation::check_permutation;
use rand::rngs::StdRng;
use rand::SeedableRng;

fn test_instance() -> Instance {
    Instance {
        jobs: 5,
        stages: 2,
        machines: vec![2, 1],
        processing_times: vec![
            vec![71, 98],
            vec![51, 54],
            vec![0, 49],
            vec![94, 28],
            vec![29, 90],
        ],
        setup_times: vec![
            vec![
                vec![1, 2, 3, 4, 5],
                vec![1, 2, 3, 4, 5],
                vec![1, 2, 3, 4, 5],
                vec![1, 2, 3, 4, 5],
                vec![5, 2, 3, 4, 5],
            ],
            vec![
                vec![1, 2, 3, 4, 5],
                vec![1, 2, 7, 4, 5],
                vec![1, 2, 3, 4, 5],
                vec![1, 2, 3, 4, 5],
                vec![3, 2, 3, 4, 5],
            ],
        ],
    }
}

#[test]
fn chromosome_ordering() {
    let problem = test_instance();

    let mut c1 = Chromosome::from(vec![0, 1, 2, 3, 4]);
    let mut c2 = Chromosome::from(vec![4, 3, 2, 1, 0]);

    let mut makespan = Makespan {
        count: 0,
        instance: problem.clone(),
    };

    c1.makespan(&mut makespan);
    c2.makespan(&mut makespan);

    assert!(c1 > c2);
    assert!(c1 >= c2);
    assert!(c1 != c2);
}

#[test]
fn testing() {
    println!("yes")
}

#[test]
fn test_heuristic_performance() {
    let instance = test_instance();

    let mut makespan = Makespan::new(&instance);

    let mut rng = StdRng::seed_from_u64(123);

    let mut constructor = GCH {
        makespan: &mut makespan,
        rng: &mut rng,
    };

    let mut heuristic: Vec<Chromosome> = constructor.take(10);

    let mut makespan = Makespan::new(&instance);
    let mut random: Vec<Chromosome> = Vec::new();
    for _ in 0..10 {
        random.push(Chromosome::new(&instance, &mut rng));
    }

    heuristic.iter_mut().for_each(|c| c.makespan(&mut makespan));
    random.iter_mut().for_each(|c| c.makespan(&mut makespan));

    assert!(
        heuristic.iter().map(|s| s.makespan.unwrap()).sum::<u32>()
            <= random.iter().map(|s| s.makespan.unwrap()).sum::<u32>()
    )
}

#[test]
fn greedy_construction_is_evaluated() {
    let instance = test_instance();
    for seed in 0..20 {
        let mut makespan = Makespan::new(&instance);
        let mut rng = StdRng::seed_from_u64(seed);
        let c = construct(&mut makespan, &mut rng);
        assert!(check_permutation(&c.jobs, 5));
        assert!(!c.updated);
        assert_eq!(c.makespan, Some(makespan.makespan(&c.jobs).0));
        let mut g = GCH {
            makespan: &mut makespan,
            rng: &mut rng,
        };
        let d = g.create();
        assert!(check_permutation(&d.jobs, 5));
    }
}

#[test]
fn local_search_never_worsens() {
    let instance = test_instance();
    for seed in 0..20 {
        let mut makespan = Makespan::new(&instance);
        let mut rng = StdRng::seed_from_u64(seed);
        let start = Chromosome::new(&instance, &mut rng);
        let before = makespan.makespan(&start.jobs).0;
        let (found, m) = iterative_improvement_insertion(&mut makespan, &start.jobs, &mut rng);
        assert!(m <= before);
        assert!(check_permutation(&found, 5));
        assert_eq!(makespan.makespan(&found).0, m);
    }
}

#[test]
fn iterated_greedy_small() {
    let instance = test_instance();
    let mut makespan = Makespan::new(&instance);
    let mut rng = StdRng::seed_from_u64(123);
    let (schedule, m) = iterated_greedy(&mut makespan, None, 200, None, &mut rng);
    assert!(check_permutation(&schedule, 5));
    assert_eq!(makespan.makespan(&schedule).0, m);
    assert!(makespan.count >= 200);

    let start = vec![4, 3, 2, 1, 0];
    let start_cost = makespan.makespan(&start).0;
    let (schedule, m) = iterated_greedy(
        &mut makespan,
        Some((start, start_cost)),
        100,
        Some(Options {
            temp: 500,
            block_size: 2,
        }),
        &mut rng,
    );
    assert!(m <= start_cost);
    assert!(check_permutation(&schedule, 5));

    let mut c = Chromosome::from(vec![2, 0, 1, 3, 4]);
    let before = makespan.makespan(&c.jobs).0;
    ls_ig(&mut c, &mut makespan, 50, &mut rng);
    assert!(c.makespan.unwrap() <= before);
    assert!(!c.updated);
}

#[test]
fn termination_rules() {
    assert!(is_terminated(10, 10, 0, 0, 5, true));
    assert!(!is_terminated(9, 10, 100, 0, 5, true));
    assert!(is_terminated(0, 10, 15, 10, 5, false));
    assert!(!is_terminated(20, 10, 14, 10, 5, false));
}

#[test]
fn options_grid() {
    let grid = OptionsGrid {
        temp: vec![100, 200],
        block_size: vec![2, 3, 4],
    };
    let all = grid.get_options();
    assert_eq!(all.len(), 6);
    assert_eq!((all[0].temp, all[0].block_size), (100, 2));
    assert_eq!((all[2].temp, all[2].block_size), (100, 4));
    assert_eq!((all[3].temp, all[3].block_size), (200, 2));
    assert_eq!((all[5].temp, all[5].block_size), (200, 4));
    let d = Options::default();
    assert_eq!((d.temp, d.block_size), (500, 2));
}

#[test]
fn random_permutations_vary() {
    let instance = test_instance();
    let identity: Vec<u32> = vec![0, 1, 2, 3, 4];
    let mut seen: Vec<Vec<u32>> = Vec::new();
    for seed in 0..30 {
        let mut rng = StdRng::seed_from_u64(seed);
        let c = Chromosome::new(&instance, &mut rng);
        assert!(check_permutation(&c.jobs, 5));
        assert!(c.updated && c.makespan.is_none());
        if !seen.contains(&c.jobs) {
            seen.push(c.jobs);
        }
    }
    assert!(seen.len() > 5);
    assert!(seen.iter().any(|jobs| jobs != &identity));
}

#[test]
fn removals_vary() {
    let schedule: Vec<u32> = vec![4, 2, 0, 3, 1];
    let mut taken: Vec<u32> = Vec::new();
    for seed in 0..40 {
        let mut rng = StdRng::seed_from_u64(seed);
        let (rest, job) = remove_random(&schedule, &mut rng);
        assert_eq!(rest.len(), 4);
        assert!(!rest.contains(&job));
        let mut back = rest.clone();
        back.insert(schedule.iter().position(|j| *j == job).unwrap(), job);
        assert_eq!(back, schedule);
        if !taken.contains(&job) {
            taken.push(job);
        }
        let (rest, fresh) = remove_fresh(&schedule, &vec![4, 0, 1], &mut rng);
        assert!(fresh == 2 || fresh == 3);
        assert_eq!(rest.len(), 4);
    }
    assert_eq!(taken.len(), 5);
}

#[test]
fn rounds_and_their_judgement() {
    let instance = test_instance();
    let mut makespan = Makespan::new(&instance);
    let mut rng = StdRng::seed_from_u64(1);
    let current = vec![0, 1, 2, 3, 4];
    let (candidate, m) = destruct_construct(&mut makespan, &current, 2, &mut rng);
    assert!(check_permutation(&candidate, 5));
    assert_eq!(makespan.makespan(&candidate).0, m);

    let mut cur = (vec![0u32, 1], 50u32);
    let mut best = (vec![1u32, 0], 40u32);
    settle_round(&mut cur, &mut best, (vec![9], 45), false);
    assert_eq!(cur, (vec![9], 45));
    assert_eq!(best, (vec![1, 0], 40));
    settle_round(&mut cur, &mut best, (vec![8], 30), false);
    assert_eq!(cur, (vec![8], 30));
    assert_eq!(best, (vec![8], 30));
    settle_round(&mut cur, &mut best, (vec![7], 60), false);
    assert_eq!(cur, (vec![8], 30));
    settle_round(&mut cur, &mut best, (vec![7], 60), true);
    assert_eq!(cur, (vec![7], 60));
    assert_eq!(best, (vec![8], 30));
}

#[test]
fn iterated_greedy_iterative_improvement_insertion_test() {
    let i: Instance = test_instance();
    let mut m: Makespan = Makespan::new(&i);
    let schedule: Vec<u32> = (0..5).collect();

    let mut rng = StdRng::seed_from_u64(123);

    let (local_search, _) = iterative_improvement_insertion(&mut m, &schedule, &mut rng);
    println!(
        "Initial schedule makspan: {}, after iii: {}, makespan calculations: {}",
        m.makespan(&schedule).0,
        m.makespan(&local_search).0,
        m.count
    );
    assert!(m.makespan(&schedule).0 >= m.makespan(&local_search).0);
}

fn mini_instance() -> Instance {
    Instance {
        jobs: 3,
        stages: 2,
        machines: vec![1, 1],
        processing_times: vec![vec![1, 1], vec![20, 0], vec![10, 10]],
        setup_times: vec![
            vec![vec![1, 1, 1], vec![1, 1, 1], vec![1, 1, 1]],
            vec![vec![1, 1, 1], vec![1, 1, 1], vec![1, 1, 1]],
        ],
    }
}

fn built_instance(jobs: u32) -> Instance {
    let processing_times: Vec<Vec<u32>> = (0..jobs)
        .map(|j| (0..2).map(|s| 10 + (j * 37 + s * 53 + j * j * 11) % 90).collect())
        .collect();
    let setup_times: Vec<Vec<Vec<u32>>> = (0..2)
        .map(|s| {
            (0..jobs)
                .map(|i| (0..jobs).map(|j| 1 + (i * 7 + j * 3 + s * 5) % 9).collect())
                .collect()
        })
        .collect();
    Instance {
        jobs,
        stages: 2,
        machines: vec![2, 1],
        processing_times,
        setup_times,
    }
}

#[test]
fn test_number_unique_solutions() {
    let instance = built_instance(20);

    let mut makespan = Makespan::new(&instance);

    let mut rng = StdRng::seed_from_u64(123);

    let mut constructor = GCH {
        makespan: &mut makespan,
        rng: &mut rng,
    };

    let mut population: Vec<Chromosome> = constructor.take(100);

    let mut already_seen = Vec::new();

    // See how many unique permutations are in the population
    population.retain(|c| match already_seen.contains(&c.jobs) {
        true => false,
        _ => {
            already_seen.push(c.jobs.to_vec());
            true
        }
    });

    // Assure there is some diversity
    assert!(population.len() > 50)
}

#[test]
fn short_schedules_are_left_alone() {
    let instance = mini_instance();
    let mut makespan = Makespan::new(&instance);
    let mut rng = StdRng::seed_from_u64(3);
    let (found, m) = iterative_improvement_insertion(&mut makespan, &vec![0, 1, 2], &mut rng);
    assert_eq!(found, vec![0, 1, 2]);
    assert_eq!(m, 45);
    assert_eq!(makespan.count, 1);

    let instance = test_instance();
    let mut makespan = Makespan::new(&instance);
    let (found, m) = iterative_improvement_insertion(&mut makespan, &vec![3, 1, 0, 2], &mut rng);
    assert_eq!(found, vec![3, 1, 0, 2]);
    assert_eq!(m, makespan.makespan(&found).0);
    assert_eq!(makespan.count, 2);
}

#[test]
fn local_search_counts_its_passes() {
    let instance = test_instance();
    for seed in 0..10 {
        let mut makespan = Makespan::new(&instance);
        let mut rng = StdRng::seed_from_u64(seed);
        iterative_improvement_insertion(&mut makespan, &vec![4, 3, 2, 1, 0], &mut rng);
        // One simulation at the start, then five for each pass.
        assert!(makespan.count >= 6);
        assert_eq!((makespan.count - 1) % 5, 0);
    }
}

#[test]
fn iterated_greedy_spends_its_allowance() {
    let instance = test_instance();
    for seed in 0..5 {
        let mut makespan = Makespan::new(&instance);
        let mut rng = StdRng::seed_from_u64(seed);
        let (_, m) = iterated_greedy(&mut makespan, None, 40, None, &mut rng);
        // Fifteen simulations build the first schedule.
        assert!(makespan.count >= 15 + 40 + 1);
        let mut fresh = Makespan::new(&instance);
        let (_, start) = NEH::neh(&mut fresh);
        assert!(m <= start);

        let mut makespan = Makespan::new(&instance);
        let start = vec![4, 3, 2, 1, 0];
        let cost = makespan.makespan(&start).0;
        iterated_greedy(&mut makespan, Some((start, cost)), 40, None, &mut rng);
        assert!(makespan.count >= 1 + 40 + 1);
    }
}

#[test]
fn a_round_spends_its_simulations() {
    let instance = test_instance();
    for seed in 0..10 {
        let mut makespan = Makespan::new(&instance);
        let mut rng = StdRng::seed_from_u64(seed);
        let current = vec![4, 0, 3, 1, 2];
        let before = makespan.makespan(&current).0;
        let (found, m) = destruct_construct(&mut makespan, &current, 2, &mut rng);
        // Two jobs go back into three and then four others; the search follows.
        assert!(makespan.count >= 1 + 2 + 9 + 1);
        assert!(check_permutation(&found, 5));
        assert_eq!(makespan.makespan(&found).0, m);
        // Taking no job out leaves the local search alone to improve.
        let (same, m0) = destruct_construct(&mut makespan, &current, 0, &mut rng);
        assert!(check_permutation(&same, 5));
        assert!(m0 <= before);
    }
}

#[test]
fn greedy_construction_counts_its_tries() {
    let instance = test_instance();
    let mut makespan = Makespan::new(&instance);
    let mut rng = StdRng::seed_from_u64(17);
    let mut constructor = GCH {
        makespan: &mut makespan,
        rng: &mut rng,
    };
    let c = constructor.create();
    assert!(check_permutation(&c.jobs, 5));
    // 1 + 2 + 3 + 4 + 5 places are tried.
    assert_eq!(constructor.makespan.count, 15);
    let more = constructor.take(7);
    assert_eq!(more.len(), 7);
    assert_eq!(constructor.makespan.count, 8 * 15);
    // The job that went in last stands at a place of lowest makespan.
    for c in more.iter() {
        let best = c.makespan.unwrap();
        let mut found = false;
        for (at, job) in c.jobs.iter().enumerate() {
            let mut rest = c.jobs.clone();
            rest.remove(at);
            let mut lowest = u32::MAX;
            for p in 0..=rest.len() {
                let mut tried = rest.clone();
                tried.insert(p, *job);
                lowest = lowest.min(makespan.makespan(&tried).0);
            }
            found = found || lowest == best;
        }
        assert!(found);
    }
}

#[test]
fn local_search_ends_settled() {
    let instance = test_instance();
    for seed in 0..20 {
        let mut makespan = Makespan::new(&instance);
        let mut rng = StdRng::seed_from_u64(seed);
        let start = Chromosome::new(&instance, &mut rng);
        let (found, m) = iterative_improvement_insertion(&mut makespan, &start.jobs, &mut rng);
        // One job of the five has been tried at every place in vain.
        let mut settled = false;
        for (at, job) in found.iter().enumerate() {
            let mut rest = found.clone();
            rest.remove(at);
            let mut lowest = u32::MAX;
            for p in 0..=rest.len() {
                let mut tried = rest.clone();
                tried.insert(p, *job);
                lowest = lowest.min(makespan.makespan(&tried).0);
            }
            settled = settled || lowest >= m;
        }
        assert!(settled);
    }
}
