use flowshop::best_insertion::find_best_insertion;
use flowshop::chromosome::Chromosome;
use flowshop::crossover::block::{copy_range, BCBX};
use flowshop::crossover::order::{
    copy_segment, generate_children, insert_remaining, match_blocks, order_crossover, HOLE, SB2OX,
    SJ2OX,
};
use flowshop::crossover::pmx::{follow, pmx_with, PMX};
use flowshop::crossover::Crossover;
use flowshop::crowding::{
    nearest_rival, pairs_straight, settle_by_lot, survivors_by_lot,
    k_nearest_replacement, survivor_selection, DeviationDistance, Distance, ExactMatch, DTYPE,
};
use flowshop::instance::Instance;
use flowshop::makespan::Makespan;
use flowshop::mutation::{reverse_at, shift_at, swap_at, Greedy, Mutation, Reverse, Swap, SHIFT};
use flowshop::permutation::{ascending_jobs, check_permutation, holds};
use itertools::Itertools;
use rand::rngs::StdRng;
use rand::SeedableRng;

fn test_instance() -> Instance {
    Instance {
        jobs: 5,
        stages: 2,
        machines: vec![2, 1],
        processing_times: vec![
            vec![71, 98],
            vec![51, 54],
            vec![0, 49],
            vec![94, 28],
            vec![29, 90],
        ],
        setup_times: vec![
            vec![
                vec![1, 2, 3, 4, 5],
                vec![1, 2, 3, 4, 5],
                vec![1, 2, 3, 4, 5],
                vec![1, 2, 3, 4, 5],
                vec![5, 2, 3, 4, 5],
            ],
            vec![
                vec![1, 2, 3, 4, 5],
                vec![1, 2, 7, 4, 5],
                vec![1, 2, 3, 4, 5],
                vec![1, 2, 3, 4, 5],
                vec![3, 2, 3, 4, 5],
            ],
        ],
    }
}

fn test_chromosome(instance: &Instance) -> Chromosome {
    let jobs: Vec<u32> = (0..instance.jobs).collect();

    Chromosome {
        jobs,
        makespan: None,
        updated: true,
    }
}

#[test]
fn test_block_insertion() {
    let instance = test_instance();
    let mut makespan = Makespan::new(&instance);
    let jobs = test_chromosome(&instance);
    let block = &[2, 3];
    let mut rng = StdRng::seed_from_u64(123);

    let filter = |jobs: Vec<u32>, block: &[u32]| -> Vec<u32> {
        jobs.into_iter().filter(|&j| !block.contains(&j)).collect()
    };

    let jobs = filter(jobs.jobs.to_vec(), block);
    let (jobs, m) = find_best_insertion(jobs, block, &mut makespan, true, &mut rng);

    assert_eq!(jobs, vec![0, 1, 2, 3, 4]);
    assert_eq!(m, 335);
    assert_eq!(makespan.makespan(&jobs).0, m);
}

#[test]
fn block_insertion_is_optimal() {
    let instance = test_instance();
    let block = &[2, 3];
    for seed in 0..20 {
        let mut makespan = Makespan::new(&instance);
        let mut rng = StdRng::seed_from_u64(seed);
        let (jobs, m) = find_best_insertion(vec![0, 1, 4], block, &mut makespan, false, &mut rng);
        assert_eq!(makespan.count, 4);
        assert_eq!(m, 335);
        assert!(jobs == vec![0, 1, 2, 3, 4] || jobs == vec![0, 1, 4, 2, 3]);
        for other in [
            vec![2, 3, 0, 1, 4],
            vec![0, 2, 3, 1, 4],
            vec![0, 1, 2, 3, 4],
            vec![0, 1, 4, 2, 3],
        ] {
            assert!(m <= makespan.makespan(&other).0);
        }
    }
}

#[test]
fn crossover_sjox() {
    let p1 = Chromosome::from(vec![
        3, 15, 17, 8, 14, 11, 13, 16, 19, 6, 1, 9, 18, 5, 4, 2, 10, 7, 20, 12,
    ]);
    let p2 = Chromosome::from(vec![
        3, 17, 9, 15, 14, 11, 13, 16, 6, 18, 5, 19, 7, 8, 4, 2, 1, 10, 20, 12,
    ]);

    let mut rng = StdRng::seed_from_u64(123);

    let (c1, c2) = SJ2OX::apply(
        &p1,
        &p2,
        Some(8),
        &mut Makespan::new(&test_instance()),
        &mut rng,
    );

    assert_eq!(
        c2.jobs,
        vec![3, 17, 9, 15, 14, 11, 13, 16, 8, 19, 6, 1, 18, 5, 4, 2, 10, 7, 20, 12]
    );
    assert_eq!(
        c1.jobs,
        vec![3, 15, 17, 8, 14, 11, 13, 16, 9, 6, 18, 5, 19, 7, 4, 2, 1, 10, 20, 12]
    );
}

fn ten_job_instance() -> Instance {
    let jobs: u32 = 10;
    let processing_times: Vec<Vec<u32>> = (0..jobs)
        .map(|j| (0..2).map(|s| 10 + (j * 37 + s * 53 + j * j * 11) % 90).collect())
        .collect();
    let setup_times: Vec<Vec<Vec<u32>>> = (0..2)
        .map(|s| {
            (0..jobs)
                .map(|i| (0..jobs).map(|j| 1 + (i * 7 + j * 3 + s * 5) % 9).collect())
                .collect()
        })
        .collect();
    Instance {
        jobs,
        stages: 2,
        machines: vec![2, 1],
        processing_times,
        setup_times,
    }
}

#[test]
fn crossover_pmx() {
    let p1 = Chromosome::from(vec![8, 7, 3, 4, 5, 6, 0, 2, 1, 9]);
    let p2 = Chromosome::from(vec![7, 6, 0, 1, 2, 9, 8, 4, 3, 5]);

    let mut rng = StdRng::seed_from_u64(123);

    let (c1, c2) = PMX::apply(
        &p1,
        &p2,
        None,
        &mut Makespan::new(&ten_job_instance()),
        &mut rng,
    );

    println!("{:?}", c1);
    println!("{:?}", c2);

    assert!(check_permutation(&c1.jobs, 10));
    assert!(check_permutation(&c2.jobs, 10));
    assert!(c1.updated && c2.updated);
    assert!(c1.makespan.is_none() && c2.makespan.is_none());
}

#[test]
fn crossover_pmx_overlap() {
    let p1 = Chromosome::from(vec![0, 1, 2, 3, 4, 5, 6, 7, 8]);
    let p2 = Chromosome::from(vec![4, 3, 5, 8, 1, 0, 6, 7, 2]);

    let mut rng = StdRng::seed_from_u64(123);

    let (c1, c2) = PMX::apply(
        &p1,
        &p2,
        None,
        &mut Makespan::new(&test_instance()),
        &mut rng,
    );

    // Assert that there are no jobs that appear twice or more
    itertools::assert_equal(c1.jobs.iter().unique(), &c1.jobs);
    itertools::assert_equal(c2.jobs.iter().unique(), &c2.jobs);
}

#[test]
fn exact_distance() {
    let c1 = Chromosome::from(vec![0, 1, 2, 3, 4, 5]);
    let c2 = Chromosome::from(vec![0, 1, 2, 4, 3, 5]);

    assert_eq!(ExactMatch::distance(&c1, &c2), 4);
    let short = Chromosome::from(vec![0, 1, 5]);
    assert_eq!(ExactMatch::distance(&c1, &short), 2);
    assert_eq!(ExactMatch::distance(&short, &c2), 2);
    assert_eq!(DeviationDistance::distance(&c1, &c2), 2);
    assert_eq!(DeviationDistance::distance(&c1, &c1), 0);
}

#[test]
fn deviation_distance() {
    let c1 = Chromosome::from(vec![5, 1, 2, 3, 4, 0]);
    let c2 = Chromosome::from(vec![0, 1, 2, 4, 3, 5]);

    assert_eq!(DeviationDistance::distance(&c1, &c2), 12);
}

#[test]
fn match_p1_c1() {
    let mut p1 = Chromosome::from(vec![5, 4, 3, 2, 1, 0]);
    let mut p2 = Chromosome::from(vec![0, 1, 2, 3, 4, 5]);

    let mut c1 = Chromosome::from(vec![5, 4, 3, 1, 2, 0]);
    let mut c2 = Chromosome::from(vec![1, 0, 2, 3, 4, 5]);

    p1.makespan = Some(10);
    p2.makespan = Some(20);

    c1.makespan = Some(15);
    c2.makespan = Some(5);

    let mut rng = StdRng::seed_from_u64(123);

    // Deterministic crowding
    let res = survivor_selection(
        &mut [c1, c2],
        &[p1, p2],
        DTYPE::DeviationDistance,
        &mut rng,
    );

    let mut p1 = Chromosome::from(vec![5, 4, 3, 2, 1, 0]);
    let mut c2 = Chromosome::from(vec![1, 0, 2, 3, 4, 5]);

    p1.makespan = Some(10);
    c2.makespan = Some(5);

    assert_eq!(res, [p1, c2]);
}

#[test]
fn match_p1_c2() {
    let mut p1 = Chromosome::from(vec![5, 4, 3, 2, 1, 0]);
    let mut p2 = Chromosome::from(vec![0, 1, 2, 3, 4, 5]);

    let mut c1 = Chromosome::from(vec![1, 0, 3, 2, 4, 5]);
    let mut c2 = Chromosome::from(vec![4, 5, 3, 1, 2, 0]);

    p1.makespan = Some(10);
    p2.makespan = Some(20);

    c1.makespan = Some(15);
    c2.makespan = Some(5);

    let mut rng = StdRng::seed_from_u64(123);

    // Deterministic crowding
    let res = survivor_selection(
        &mut [c1, c2],
        &[p1, p2],
        DTYPE::DeviationDistance,
        &mut rng,
    );

    let mut c1 = Chromosome::from(vec![1, 0, 3, 2, 4, 5]);
    let mut c2 = Chromosome::from(vec![4, 5, 3, 1, 2, 0]);

    c1.makespan = Some(15);
    c2.makespan = Some(5);

    assert_eq!(res, [c2, c1]);
}

#[test]
fn knn_replacement_k1() {
    let mut p1 = Chromosome::from(vec![0, 1, 2, 3, 4, 5]);
    let mut p2 = Chromosome::from(vec![0, 1, 3, 2, 4, 5]);
    let mut p3 = Chromosome::from(vec![5, 4, 3, 2, 1, 0]);
    let mut c = Chromosome::from(vec![4, 5, 3, 2, 1, 0]);

    p1.makespan = Some(10);
    p2.makespan = Some(12);
    p3.makespan = Some(20);
    c.makespan = Some(15);

    let pop = vec![p1, p2, p3];

    let mut rng = StdRng::seed_from_u64(123);

    let replacement_idx = k_nearest_replacement(&c, &pop, 1, DTYPE::DeviationDistance, &mut rng);

    assert_eq!(replacement_idx, Some(2));
}

#[test]
fn knn_replacement_k2() {
    let mut p1 = Chromosome::from(vec![0, 1, 2, 3, 4, 5]);
    let mut p2 = Chromosome::from(vec![0, 1, 3, 2, 4, 5]);
    let mut p3 = Chromosome::from(vec![5, 4, 3, 2, 1, 0]);
    let mut c = Chromosome::from(vec![4, 5, 3, 2, 1, 0]);

    p1.makespan = Some(20);
    p2.makespan = Some(20);
    p3.makespan = Some(10);
    c.makespan = Some(15);

    let pop = vec![p1, p2, p3];
    let mut rng = StdRng::seed_from_u64(123);

    let replacement_idx = k_nearest_replacement(&c, &pop, 2, DTYPE::DeviationDistance, &mut rng);

    assert_eq!(replacement_idx, Some(1));
}

#[test]
fn knn_no_replacement() {
    let mut p1 = Chromosome::from(vec![0, 1, 2, 3, 4, 5]);
    let mut p2 = Chromosome::from(vec![0, 1, 3, 2, 4, 5]);
    let mut p3 = Chromosome::from(vec![5, 4, 3, 2, 1, 0]);
    let mut c = Chromosome::from(vec![4, 5, 3, 2, 1, 0]);

    p1.makespan = Some(20);
    p2.makespan = Some(12);
    p3.makespan = Some(10);
    c.makespan = Some(15);

    let pop = vec![p1, p2, p3];

    let mut rng = StdRng::seed_from_u64(123);

    let replacement_idx = k_nearest_replacement(&c, &pop, 2, DTYPE::DeviationDistance, &mut rng);

    assert_eq!(replacement_idx, None);
}

#[test]
fn test_reverse() {
    // Generate two identical chromosomes
    let mut jobs_mutate = Chromosome::from((0..20).collect::<Vec<u32>>());
    let jobs_compare = Chromosome::from((0..20).collect::<Vec<u32>>());

    assert_eq!(jobs_mutate.jobs.len(), 20);

    let mut rng = StdRng::seed_from_u64(123);

    // Apply reversal mutation
    Reverse::apply(
        &mut jobs_mutate,
        &mut Makespan::new(&test_instance()),
        &mut rng,
    );

    // Count the number of jobs that are now equal
    let count = jobs_mutate
        .jobs
        .iter()
        .zip(jobs_compare.jobs.iter())
        .filter(|(&j1, &j2)| j1 == j2)
        .count();

    // Two of the jobs in the first chromosomes should have changed
    // Thus, 18 of the jobs should equal
    assert_eq!(count, 18);
}

#[test]
fn test_swap() {
    let mut c = Chromosome::from((0..10).collect::<Vec<u32>>());

    let j1 = 0;
    let j2 = 9;

    c.jobs.swap(j1, j2);

    assert_eq!(c.jobs, vec![9, 1, 2, 3, 4, 5, 6, 7, 8, 0]);

    let mut jobs_mutate = Chromosome::from((0..20).collect::<Vec<u32>>());
    let jobs_compare = Chromosome::from((0..20).collect::<Vec<u32>>());

    let mut rng = StdRng::seed_from_u64(123);

    Swap::apply(
        &mut jobs_mutate,
        &mut Makespan::new(&test_instance()),
        &mut rng,
    );

    // Count the number of jobs that are now equal
    let count = jobs_mutate
        .jobs
        .iter()
        .zip(jobs_compare.jobs.iter())
        .filter(|(&j1, &j2)| j1 == j2)
        .count();

    // Two of the jobs in the first chromosome should have changed
    // Thus, 18 of the jobs should equal
    assert_eq!(count, 18);
}

#[test]
fn test_greedy() {
    let instance = test_instance();
    let mut makespan = Makespan::new(&instance);
    let mut c = Chromosome::from((0..instance.jobs).collect::<Vec<u32>>());

    // Calculate makespan before mutation
    let (makespan_before, _) = makespan.makespan(&c.jobs);

    let mut rng = StdRng::seed_from_u64(123);

    // Apply mutation
    Greedy::apply(&mut c, &mut makespan, &mut rng);

    // Calculate makespan after mutation
    let (makespan_after, _) = makespan.makespan(&c.jobs);

    // Makespan after mutation should be _at least_ as good as makespan before mutation
    assert!(makespan_before >= makespan_after);
}

#[test]
fn operators_keep_permutations() {
    let instance = test_instance();
    for seed in 0..50 {
        let mut rng = StdRng::seed_from_u64(seed);
        let mut makespan = Makespan::new(&instance);
        let p1 = Chromosome::new(&instance, &mut rng);
        let p2 = Chromosome::new(&instance, &mut rng);
        assert!(check_permutation(&p1.jobs, 5));
        assert!(check_permutation(&p2.jobs, 5));

        let (a, b) = SJ2OX::apply(&p1, &p2, None, &mut makespan, &mut rng);
        assert!(check_permutation(&a.jobs, 5) && check_permutation(&b.jobs, 5));
        let (a, b) = SB2OX::apply(&p1, &p2, None, &mut makespan, &mut rng);
        assert!(check_permutation(&a.jobs, 5) && check_permutation(&b.jobs, 5));
        let (a, b) = BCBX::apply(&p1, &p2, Some(2), &mut makespan, &mut rng);
        assert!(check_permutation(&a.jobs, 5) && check_permutation(&b.jobs, 5));
        assert_eq!(a.makespan, Some(makespan.makespan(&a.jobs).0));
        assert_eq!(b.makespan, Some(makespan.makespan(&b.jobs).0));
        let (a, b) = PMX::apply(&p1, &p2, None, &mut makespan, &mut rng);
        assert!(check_permutation(&a.jobs, 5) && check_permutation(&b.jobs, 5));

        let mut c = Chromosome::from(p1.jobs.clone());
        SHIFT::apply(&mut c, &mut makespan, &mut rng);
        assert!(check_permutation(&c.jobs, 5) && c.updated);
        Reverse::apply(&mut c, &mut makespan, &mut rng);
        assert!(check_permutation(&c.jobs, 5));
        Swap::apply(&mut c, &mut makespan, &mut rng);
        assert!(check_permutation(&c.jobs, 5));
        Greedy::apply(&mut c, &mut makespan, &mut rng);
        assert!(check_permutation(&c.jobs, 5));
        assert_eq!(c.makespan, Some(makespan.makespan(&c.jobs).0));
    }
}

#[test]
fn single_cut_keeps_agreeing_places() {
    let instance = test_instance();
    let p1 = Chromosome::from(vec![0, 1, 2, 3, 4]);
    let p2 = Chromosome::from(vec![3, 1, 0, 2, 4]);
    let mut rng = StdRng::seed_from_u64(7);
    let mut makespan = Makespan::new(&instance);
    for k in 0..5 {
        let (c1, c2) = SJ2OX::apply(&p1, &p2, Some(k), &mut makespan, &mut rng);
        for i in 0..5 {
            if i < k || p1.jobs[i] == p2.jobs[i] {
                assert_eq!(c1.jobs[i], p1.jobs[i]);
                assert_eq!(c2.jobs[i], p2.jobs[i]);
            }
        }
    }
    let (c1, c2) = SJ2OX::apply(&p1, &p2, Some(2), &mut makespan, &mut rng);
    assert_eq!(c1.jobs, vec![0, 1, 3, 2, 4]);
    assert_eq!(c2.jobs, vec![3, 1, 0, 2, 4]);
    let (c1, c2) = SJ2OX::apply(&p1, &p2, Some(5), &mut makespan, &mut rng);
    assert_eq!(c1.jobs, p1.jobs);
    assert_eq!(c2.jobs, p2.jobs);
}

#[test]
fn check_permutation_rejects() {
    assert!(check_permutation(&vec![2, 0, 1], 3));
    assert!(!check_permutation(&vec![2, 0, 2], 3));
    assert!(!check_permutation(&vec![0, 1, 3], 3));
    assert!(!check_permutation(&vec![0, 1], 3));
}

#[test]
fn pmx_with_cuts() {
    let p1: Vec<u32> = vec![0, 1, 2, 3, 4, 5, 6, 7, 8];
    let p2: Vec<u32> = vec![4, 3, 5, 8, 1, 0, 6, 7, 2];
    // The chains 0 -> 5 -> 2 and 8 -> 3 run through the mapped segment.
    assert_eq!(pmx_with(&p1, &p2, 2, 6), vec![2, 4, 5, 8, 1, 0, 6, 7, 3]);
    assert_eq!(pmx_with(&p2, &p1, 2, 6), vec![1, 8, 2, 3, 4, 5, 6, 7, 0]);
    assert_eq!(pmx_with(&p1, &p2, 3, 3), p1);
    assert_eq!(pmx_with(&p1, &p2, 0, 9), p2);
    let mapping = vec![Some(5), Some(4), None, None, None, Some(2)];
    assert_eq!(follow(&mapping, 0), 2);
    assert_eq!(follow(&mapping, 1), 4);
    assert_eq!(follow(&mapping, 3), 3);
}

#[test]
fn order_crossover_parts() {
    let p1 = Chromosome::from(vec![0, 1, 2, 3, 4]);
    let p2 = Chromosome::from(vec![4, 3, 2, 1, 0]);
    // The parents agree at place 2 only.
    assert_eq!(
        order_crossover(&p1, &p2, 0, 1, true),
        (vec![0, 4, 3, 2, 1], vec![4, 0, 1, 2, 3])
    );
    assert_eq!(
        order_crossover(&p1, &p2, 0, 1, false),
        (vec![0, 4, 2, 3, 1], vec![4, 0, 2, 1, 3])
    );
    assert_eq!(
        order_crossover(&p1, &p2, 3, 5, true),
        (vec![2, 1, 0, 3, 4], vec![2, 3, 4, 1, 0])
    );
    let mut rng = StdRng::seed_from_u64(1);
    let mut makespan = Makespan::new(&test_instance());
    let (c1, c2) = SJ2OX::apply(&p1, &p2, Some(1), &mut makespan, &mut rng);
    assert_eq!((c1.jobs, c2.jobs), (vec![0, 4, 2, 3, 1], vec![4, 0, 2, 1, 3]));
    assert!(c1.updated && c1.makespan.is_none());

    let (mut c1, mut c2) = generate_children(&p1, &p2);
    assert_eq!(c1, vec![HOLE; 5]);
    assert_eq!(c2, vec![HOLE; 5]);
    copy_segment(&mut c1, &p1.jobs, 1, 3);
    assert_eq!(c1, vec![HOLE, 1, 2, HOLE, HOLE]);
    let q1 = Chromosome::from(vec![0, 1, 2, 3, 4]);
    let q2 = Chromosome::from(vec![0, 1, 4, 3, 2]);
    let (mut d1, mut d2) = generate_children(&q1, &q2);
    let (mut o1, mut o2) = (vec![9], Vec::new());
    match_blocks(&q1, &q2, &mut d1, &mut d2, &mut o1, &mut o2);
    // Places 0 and 1 form a block; place 3 agrees alone.
    assert_eq!(d1, vec![0, 1, HOLE, HOLE, HOLE]);
    assert_eq!(d2, vec![0, 1, HOLE, HOLE, HOLE]);
    assert_eq!(o1, vec![9, 2, 3, 4]);
    assert_eq!(o2, vec![4, 3, 2]);
    insert_remaining(3, &mut d1, vec![7, 8, 9], &mut d2, vec![5, 6]);
    assert_eq!(d1, vec![0, 1, HOLE, 7, 8]);
    assert_eq!(d2, vec![0, 1, HOLE, 5, 6]);
    assert_eq!(copy_range(&vec![5, 6, 7, 8], 1, 3), vec![6, 7]);
    assert!(holds(&vec![5, 6], 6) && !holds(&vec![5, 6], 7));
    assert_eq!(ascending_jobs(4), vec![0, 1, 2, 3]);
}

#[test]
fn block_exchange_children() {
    let instance = test_instance();
    let p1 = Chromosome::from(vec![0, 1, 2, 3, 4]);
    let p2 = Chromosome::from(vec![4, 3, 2, 1, 0]);
    for seed in 0..30 {
        let mut rng = StdRng::seed_from_u64(seed);
        let mut makespan = Makespan::new(&instance);
        let (c1, c2) = BCBX::apply(&p1, &p2, Some(2), &mut makespan, &mut rng);
        // Each child is one parent without a block of the other, with the
        // block put in as a whole.
        let blocks_of = |parent: &Vec<u32>| -> Vec<Vec<u32>> {
            (0..3).map(|b| parent[b..b + 2].to_vec()).collect()
        };
        let made_from = |child: &Vec<u32>, own: &Vec<u32>, other: &Vec<u32>| -> bool {
            blocks_of(other).iter().any(|block| {
                let rest: Vec<u32> = own.iter().cloned().filter(|j| !block.contains(j)).collect();
                (0..=rest.len()).any(|at| {
                    let mut built = rest.clone();
                    built.splice(at..at, block.iter().cloned());
                    &built == child
                })
            })
        };
        assert!(made_from(&c1.jobs, &p1.jobs, &p2.jobs));
        assert!(made_from(&c2.jobs, &p2.jobs, &p1.jobs));
        assert_eq!(makespan.count, 8);
    }
}

#[test]
fn mutations_at_given_places() {
    let mut c = Chromosome::new_with_makespan(vec![0, 1, 2, 3, 4, 5], 7);
    shift_at(&mut c, 1, 4);
    assert_eq!(c.jobs, vec![0, 2, 3, 4, 1, 5]);
    assert!(c.updated);
    assert_eq!(c.makespan, Some(7));
    shift_at(&mut c, 4, 0);
    assert_eq!(c.jobs, vec![1, 0, 2, 3, 4, 5]);
    reverse_at(&mut c, 1, 4);
    assert_eq!(c.jobs, vec![1, 4, 3, 2, 0, 5]);
    reverse_at(&mut c, 2, 3);
    assert_eq!(c.jobs, vec![1, 4, 0, 2, 3, 5]);
    reverse_at(&mut c, 3, 0);
    assert_eq!(c.jobs, vec![1, 4, 0, 2, 3, 5]);
    swap_at(&mut c, 0, 5);
    assert_eq!(c.jobs, vec![5, 4, 0, 2, 3, 1]);
    swap_at(&mut c, 2, 2);
    assert_eq!(c.jobs, vec![5, 4, 0, 2, 3, 1]);
}

#[test]
fn lots_decide_duels() {
    let mut parent = Chromosome::from(vec![0, 1, 2]);
    let mut child = Chromosome::from(vec![2, 1, 0]);
    parent.makespan = Some(10);
    child.makespan = Some(30);
    // The lot decides, whatever the makespans are.
    assert_eq!(settle_by_lot(&parent, &child, true).jobs, vec![2, 1, 0]);
    assert_eq!(settle_by_lot(&parent, &child, true).makespan, Some(30));
    assert_eq!(settle_by_lot(&parent, &child, false).jobs, vec![0, 1, 2]);
    assert_eq!(settle_by_lot(&parent, &child, false).makespan, Some(10));

    let mut p1 = Chromosome::from(vec![5, 4, 3, 2, 1, 0]);
    let mut p2 = Chromosome::from(vec![0, 1, 2, 3, 4, 5]);
    let mut c1 = Chromosome::from(vec![5, 4, 3, 1, 2, 0]);
    let mut c2 = Chromosome::from(vec![1, 0, 2, 3, 4, 5]);
    p1.makespan = Some(10);
    p2.makespan = Some(20);
    c1.makespan = Some(15);
    c2.makespan = Some(5);
    let children = [c1.clone(), c2.clone()];
    let parents = [p1.clone(), p2.clone()];
    assert!(pairs_straight(&children, &parents, DTYPE::DeviationDistance));
    let res = survivors_by_lot(&children, &parents, DTYPE::DeviationDistance, true, false);
    assert_eq!(res[0].jobs, c1.jobs);
    assert_eq!(res[1].jobs, p2.jobs);
    let res = survivors_by_lot(&children, &parents, DTYPE::DeviationDistance, false, true);
    assert_eq!(res[0].jobs, p1.jobs);
    assert_eq!(res[1].jobs, c2.jobs);

    // Crosswise: the first parent meets the second child.
    let crossed = [c2.clone(), c1.clone()];
    assert!(!pairs_straight(&crossed, &parents, DTYPE::DeviationDistance));
    let res = survivors_by_lot(&crossed, &parents, DTYPE::DeviationDistance, true, true);
    assert_eq!(res[0].jobs, c1.jobs);
    assert_eq!(res[1].jobs, c2.jobs);
}

#[test]
fn rival_is_the_weakest_neighbour() {
    let mut p1 = Chromosome::from(vec![0, 1, 2, 3, 4, 5]);
    let mut p2 = Chromosome::from(vec![0, 1, 3, 2, 4, 5]);
    let mut p3 = Chromosome::from(vec![5, 4, 3, 2, 1, 0]);
    let mut c = Chromosome::from(vec![4, 5, 3, 2, 1, 0]);
    p1.makespan = Some(20);
    p2.makespan = Some(12);
    p3.makespan = Some(10);
    c.makespan = Some(15);
    let pop = vec![p1, p2, p3];
    // The nearest is the last; of the two nearest the second is weaker.
    assert_eq!(nearest_rival(&c, &pop, 1, DTYPE::DeviationDistance), 2);
    assert_eq!(nearest_rival(&c, &pop, 2, DTYPE::DeviationDistance), 1);
    assert_eq!(nearest_rival(&c, &pop, 3, DTYPE::DeviationDistance), 0);
}
