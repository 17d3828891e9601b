use flowshop::args::{Args, Mode};
use itertools::Itertools;
use flowshop::instance::Instance;
use flowshop::iterated_greedy::IteratedGreedy;
use flowshop::makespan::{arrival_sorted, latest_time, Makespan, Regime};
use flowshop::mddr::MDDR;
use flowshop::neh::{insert_job, sort_jobs, NEH};
use flowshop::neh_permutation::NehP;
use flowshop::problem::Problem;
use flowshop::solution::Solution;
use flowshop::solver::Solver;

fn test_instance() -> Instance {
    Instance {
        jobs: 5,
        stages: 2,
        machines: vec![2, 1],
        processing_times: vec![
            vec![71, 98],
            vec![51, 54],
            vec![0, 49],
            vec![94, 28],
            vec![29, 90],
        ],
        setup_times: vec![
            vec![
                vec![1, 2, 3, 4, 5],
                vec![1, 2, 3, 4, 5],
                vec![1, 2, 3, 4, 5],
                vec![1, 2, 3, 4, 5],
                vec![5, 2, 3, 4, 5],
            ],
            vec![
                vec![1, 2, 3, 4, 5],
                vec![1, 2, 7, 4, 5],
                vec![1, 2, 3, 4, 5],
                vec![1, 2, 3, 4, 5],
                vec![3, 2, 3, 4, 5],
            ],
        ],
    }
}

fn mini_instance() -> Instance {
    Instance {
        jobs: 3,
        stages: 2,
        machines: vec![1, 1],
        processing_times: vec![vec![1, 1], vec![20, 0], vec![10, 10]],
        setup_times: vec![
            vec![vec![1, 1, 1], vec![1, 1, 1], vec![1, 1, 1]],
            vec![vec![1, 1, 1], vec![1, 1, 1], vec![1, 1, 1]],
        ],
    }
}

#[test]
fn makespan_calculation() {
    let instance = test_instance();
    let mut makespan = Makespan::new(&instance);

    let jobs1 = vec![0, 1, 2, 3, 4];
    let jobs2 = vec![1, 2, 3, 4, 0];
    let jobs3 = vec![2, 3, 4, 0, 1];
    let jobs4 = vec![3, 4, 0, 1, 2];
    let jobs5 = vec![4, 0, 1, 2, 3];

    let (m, _) = makespan.makespan(&jobs1);
    println!("{}", m);
    let (m, _) = makespan.makespan(&jobs2);
    println!("{}", m);
    let (m, _) = makespan.makespan(&jobs3);
    println!("{}", m);
    let (m, _) = makespan.makespan(&jobs4);
    println!("{}", m);
    let (m, _) = makespan.makespan(&jobs5);
    println!("{}", m);
}

#[test]
fn test_mddr() {
    let instance = mini_instance();
    let mut makespan = Makespan::new(&instance);
    let (mks, machine_completions) = MDDR::mddr(&mut makespan);

    println!("{:?}", machine_completions);
    println!("{}", mks);
}

#[test]
fn engine_reference_schedule() {
    let instance = test_instance();
    let mut makespan = Makespan::new(&instance);
    let (m, runs) = makespan.makespan(&vec![0, 1, 2, 3, 4]);
    assert_eq!(m, 335);
    assert_eq!(
        runs,
        vec![
            vec![vec![(0, 72), (4, 106)], vec![(1, 53), (3, 151)]],
            vec![vec![(2, 52), (1, 109), (0, 208), (4, 303), (3, 335)]],
        ]
    );
    assert_eq!(makespan.count, 1);
}

#[test]
fn neh_small() {
    let instance = test_instance();
    let mut makespan = Makespan::new(&instance);
    let order = sort_jobs(&instance);
    println!("{:?}", order);
    let (schedule, m) = NEH::neh(&mut makespan);
    println!("{:?} {}", schedule, m);
    let (again, _) = makespan.makespan(&schedule);
    assert_eq!(again, m);
    let (s2, m2) = insert_job(&mut makespan, &vec![0, 1, 4], &2);
    println!("{:?} {}", s2, m2);
}

#[test]
fn earliest_completion_small() {
    let instance = mini_instance();
    let mut makespan = Makespan::new(&instance);
    let (mks, machine_completions) = MDDR::mddr(&mut makespan);
    assert_eq!(mks, 34);
    assert_eq!(
        machine_completions,
        vec![
            vec![vec![(0, 2), (2, 13), (1, 34)]],
            vec![vec![(0, 4), (2, 24)]],
        ]
    );
    // The engine is left as it was.
    assert_eq!(makespan.count, 0);
}

#[test]
fn earliest_completion_regime() {
    let instance = test_instance();
    let mut makespan = Makespan::new(&instance);
    let (mks, runs) = MDDR::mddr(&mut makespan);
    assert_eq!(mks, 379);
    assert_eq!(
        runs,
        vec![
            vec![vec![(4, 34), (0, 110)], vec![(1, 53), (3, 151)]],
            vec![vec![(2, 52), (1, 109), (3, 183), (4, 278), (0, 379)]],
        ]
    );
    let order = vec![0, 1, 2, 3, 4];
    let (mks, runs) = makespan.makespan_earliest(&order);
    assert_eq!(mks, 379);
    assert_eq!(
        runs,
        vec![
            vec![vec![(0, 72), (4, 106)], vec![(1, 53), (3, 151)]],
            vec![vec![(2, 52), (1, 109), (3, 183), (4, 278), (0, 379)]],
        ]
    );
    let (again, _) = makespan.makespan_with(&order, Regime::EarliestCompletion);
    assert_eq!(again, 379);
    let (fifo, _) = makespan.makespan_with(&order, Regime::Fifo);
    assert_eq!(fifo, 335);
    assert_eq!(makespan.count, 3);
}

#[test]
fn evaluation_is_repeatable() {
    let instance = test_instance();
    let mut makespan = Makespan::new(&instance);
    let order = vec![3, 0, 4, 2, 1];
    let first = makespan.makespan(&order);
    let second = makespan.makespan(&order);
    assert_eq!(first, second);
    assert_eq!(makespan.count, 2);
    let mut other = Makespan {
        count: 77,
        instance: instance.clone(),
    };
    assert_eq!(other.makespan(&order), first);
    assert_eq!(other.count, 78);
}

#[test]
fn counter_stops_at_the_top() {
    let mut makespan = Makespan {
        count: u32::MAX,
        instance: mini_instance(),
    };
    let (m, _) = makespan.makespan(&vec![0, 1, 2]);
    assert_eq!(m, 45);
    assert_eq!(makespan.count, u32::MAX);
}

#[test]
fn skipping_job_passes_through() {
    let instance = mini_instance();
    let mut makespan = Makespan::new(&instance);
    let (m, runs) = makespan.makespan(&vec![0, 1, 2]);
    // Job 1 skips the second stage: it is on no machine there, and the
    // makespan is the later of its time and the last completion.
    assert_eq!(runs, vec![vec![vec![(0, 2), (1, 23), (2, 34)]], vec![vec![(0, 4), (2, 45)]],]);
    assert_eq!(m, 45);
    let (m, runs) = makespan.makespan(&vec![1]);
    assert_eq!(runs, vec![vec![vec![(1, 21)]], vec![vec![]]]);
    assert_eq!(m, 21);
}

#[test]
fn machine_choice_and_setup() {
    // Two equal machines: the first is taken on a tie; an idle machine
    // charges the setup of the job after itself.
    let instance = Instance {
        jobs: 3,
        stages: 1,
        machines: vec![2],
        processing_times: vec![vec![10], vec![10], vec![5]],
        setup_times: vec![vec![vec![1, 7, 2], vec![3, 2, 9], vec![4, 4, 3]]],
    };
    assert!(instance.check());
    let mut makespan = Makespan::new(&instance);
    let (m, runs) = makespan.makespan(&vec![0, 1, 2]);
    // Job 0: 0 + 10 + setup[0][0] = 11 on machine 0. Job 1: machine 0 gives
    // 11 + 10 + 7 = 28, machine 1 gives 0 + 10 + 2 = 12. Job 2: machine 0
    // gives 11 + 5 + 2 = 18, machine 1 gives 12 + 5 + 9 = 26.
    assert_eq!(runs, vec![vec![vec![(0, 11), (2, 18)], vec![(1, 12)]]]);
    assert_eq!(m, 18);
    let found = Makespan::choose_machine_for_job(&2, &0, &0, &runs, &instance);
    assert_eq!(found, (18 + 5 + 3, 0));
    let tie = Instance {
        jobs: 1,
        stages: 1,
        machines: vec![3],
        processing_times: vec![vec![4]],
        setup_times: vec![vec![vec![1]]],
    };
    let (m, runs) = Makespan::new(&tie).makespan(&vec![0]);
    assert_eq!(m, 5);
    assert_eq!(runs, vec![vec![vec![(0, 5)], vec![], vec![]]]);
}

#[test]
fn later_stages_take_jobs_as_they_arrive() {
    // Stage 0 has two machines, so job 1 arrives at stage 1 before job 0;
    // jobs 2 and 3 arrive together and keep their order.
    let instance = Instance {
        jobs: 4,
        stages: 2,
        machines: vec![4, 1],
        processing_times: vec![vec![9, 1], vec![3, 1], vec![5, 1], vec![5, 1]],
        setup_times: vec![vec![vec![0; 4]; 4], vec![vec![0; 4]; 4]],
    };
    let mut makespan = Makespan::new(&instance);
    let (m, runs) = makespan.makespan(&vec![0, 1, 3, 2]);
    assert_eq!(runs[1], vec![vec![(1, 4), (3, 6), (2, 7), (0, 10)]]);
    assert_eq!(m, 10);
    assert_eq!(
        arrival_sorted(&vec![(0, 9), (1, 3), (3, 5), (2, 5)]),
        vec![(1, 3), (3, 5), (2, 5), (0, 9)]
    );
    assert_eq!(latest_time(&vec![(0, 9), (1, 30), (3, 5)]), 30);
    assert_eq!(latest_time(&vec![]), 0);
}

#[test]
fn instance_checks() {
    assert!(test_instance().check());
    assert!(mini_instance().check());
    let mut short = test_instance();
    short.processing_times.pop();
    assert!(!short.check());
    let mut narrow = test_instance();
    narrow.setup_times[1][2].pop();
    assert!(!narrow.is_well_shaped());
    let mut unstaffed = test_instance();
    unstaffed.machines[1] = 0;
    assert!(unstaffed.is_well_shaped());
    assert!(!unstaffed.is_staffed());
    assert!(!unstaffed.check());
    let mut long = test_instance();
    // Ten operations may take 429,496,729 each; the longest setup for job 0
    // at the first stage is 5.
    long.processing_times[0][0] = 429_496_724;
    assert!(long.is_bounded());
    long.processing_times[0][0] = 429_496_725;
    assert!(!long.is_bounded());
    assert!(!long.check());
    let mut empty = test_instance();
    empty.jobs = 0;
    assert!(!empty.check());
    let copy = test_instance().clone();
    assert_eq!(copy.processing_times, test_instance().processing_times);
    assert_eq!(copy.setup_times, test_instance().setup_times);
}

#[test]
fn neh_exact() {
    let instance = test_instance();
    assert_eq!(sort_jobs(&instance), vec![0, 3, 4, 1, 2]);
    assert_eq!(sort_jobs(&mini_instance()), vec![2, 1, 0]);
    let mut makespan = Makespan::new(&instance);
    let (schedule, m) = NEH::neh(&mut makespan);
    assert_eq!(schedule, vec![2, 1, 4, 3, 0]);
    assert_eq!(m, 334);
    // 1 + 2 + 3 + 4 + 5 places are tried.
    assert_eq!(makespan.count, 15);
    let (s, m) = insert_job(&mut makespan, &vec![0, 1, 4], &2);
    assert_eq!((s, m), (vec![2, 0, 1, 4], 303));
    assert_eq!(makespan.count, 19);
    let (s, m) = insert_job(&mut makespan, &vec![], &3);
    assert_eq!(s, vec![3]);
    assert_eq!(m, makespan.makespan(&vec![3]).0);
    let mut small = Makespan::new(&mini_instance());
    assert_eq!(NEH::neh(&mut small), (vec![0, 2, 1], 34));
}

#[test]
fn solvers() {
    let instance = test_instance();
    let mut makespan = Makespan::new(&instance);
    assert_eq!(MDDR::run(&mut makespan, None), 379);
    assert_eq!(NEH::run(&mut makespan, None), 334);
    let (order, m) = NehP::neh_p(&mut makespan);
    assert_eq!(order, vec![0, 3, 4, 1, 2]);
    assert_eq!(m, 410);
    assert_eq!(NehP::run(&mut makespan, None), 410);
    let first = IteratedGreedy::run(&mut makespan, None);
    let second = IteratedGreedy::run(&mut makespan, None);
    assert_eq!(first, second);
    assert_eq!(first, 334);
}

#[test]
fn small_problem() {
    let p = Problem::toy_problem();
    assert_eq!(p.n_jobs, 5);
    assert_eq!(p.m_stages, 2);
    assert_eq!(p.machines, vec![2, 1]);
    assert_eq!(p.processing_times[3], vec![94, 28]);
    assert_eq!(p.setup_times, vec![vec![1; 5]; 10]);
    let s = Solution::new(vec![vec![vec![(0, 1)]]], 9, &mini_instance());
    assert_eq!((s.jobs, s.stages, s.makespan), (3, 2, 9));
    assert_eq!(s.machines, vec![1, 1]);
    assert_eq!(s.machine_completions, vec![vec![vec![(0, 1)]]]);
    let args = Args {
        neh: true,
        iterated_greedy: true,
        ..Args::default()
    };
    assert_eq!(args.mode(), Mode::Neh);
    assert_eq!(Args::default().mode(), Mode::Genetic);
}

#[test]
fn makspan_test_unique() {
    let instance = test_instance();
    let mut makespan = Makespan::new(&instance);
    let schedule = (0..5).collect::<Vec<u32>>();
    let (_, machine_completions) = makespan.makespan(&schedule);
    for stage in 0..instance.stages {
        let jobs = machine_completions[stage as usize]
            .iter()
            .flatten()
            .map(|(j, _)| *j)
            .collect::<Vec<u32>>();

        let jobs_clone = jobs.clone();

        itertools::assert_equal(jobs.into_iter().unique(), jobs_clone);
    }
}

#[test]
fn neh_repeats_and_counts() {
    for instance in [test_instance(), mini_instance()] {
        let jobs = instance.jobs;
        let mut first = Makespan::new(&instance);
        let mut second = Makespan::new(&instance);
        second.count = 1000;
        let a = NEH::neh(&mut first);
        let b = NEH::neh(&mut second);
        assert_eq!(a, b);
        assert_eq!(first.count, jobs * (jobs + 1) / 2);
        assert_eq!(second.count, 1000 + jobs * (jobs + 1) / 2);
        // An engine that has run goes on to give the same schedule.
        assert_eq!(NEH::neh(&mut first), a);
        // The count stops at the top.
        let mut late = Makespan::new(&instance);
        late.count = u32::MAX - 2;
        assert_eq!(NEH::neh(&mut late), a);
        assert_eq!(late.count, u32::MAX);
    }
}

#[test]
fn instances_are_compared() {
    let instance = test_instance();
    assert!(instance.same_as(&test_instance()));
    assert!(!instance.same_as(&mini_instance()));
    let mut other = test_instance();
    other.setup_times[1][4][0] = 4;
    assert!(!instance.same_as(&other));
    let mut other = test_instance();
    other.processing_times[2][0] = 1;
    assert!(!instance.same_as(&other));
    let mut other = test_instance();
    other.machines[1] = 2;
    assert!(!instance.same_as(&other));
    let mut other = test_instance();
    other.setup_times[0].pop();
    assert!(!instance.same_as(&other));
}
