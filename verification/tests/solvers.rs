use multiway_partition::common::SolverError;
use multiway_partition::grasp::assign_round;
use multiway_partition::grasp::best_neighbor;
use multiway_partition::grasp::grasp;
use multiway_partition::grasp::greedy_heuristic;
use multiway_partition::grasp::local_search;
use multiway_partition::karmarkar_karp::create_initial_partition;
use multiway_partition::karmarkar_karp::karmarkar_karp;
use multiway_partition::karmarkar_karp::merge_step;
use multiway_partition::karmarkar_karp::select_top_two_partitions;
use multiway_partition::Partition;
use multiway_partition::Subset;

fn check_consistency(p: &Partition) {
    assert!(!p.subsets.is_empty());
    let mut max = i64::MIN;
    let mut min = i64::MAX;
    for s in &p.subsets {
        let true_sum: i64 = s.numbers.iter().map(|n| *n as i64).sum();
        assert_eq!(s.sum, true_sum, "cached subset sum must be exact");
        max = max.max(s.sum);
        min = min.min(s.sum);
    }
    assert_eq!(p.maximum_sum as i64, max, "cached maximum must be exact");
    assert_eq!(p.minimum_sum as i64, min, "cached minimum must be exact");
}

fn check_coverage(p: &Partition, input: &[u64]) {
    let mut actual: Vec<u64> = p.subsets.iter().flat_map(|s| s.numbers.clone()).collect();
    let mut expected: Vec<u64> = input.to_vec();
    actual.sort_unstable();
    expected.sort_unstable();
    assert_eq!(actual, expected, "output must cover the input multiset exactly");
}

#[test]
fn kk_five_numbers_two_subsets() {
    let nums: Vec<u64> = vec![8, 7, 6, 5, 4];
    let p = karmarkar_karp(&nums, 2).unwrap();
    assert_eq!(p.subsets.len(), 2);
    check_consistency(&p);
    check_coverage(&p, &nums);
    let total: i64 = p.subsets.iter().map(|s| s.sum).sum();
    assert_eq!(total, 30);
    assert_eq!(p.maximum_sum, 16);
    assert_eq!(p.minimum_sum, 14);
}

#[test]
fn kk_four_ones_two_subsets() {
    let nums: Vec<u64> = vec![1, 1, 1, 1];
    let p = karmarkar_karp(&nums, 2).unwrap();
    assert_eq!(p.subsets.len(), 2);
    check_consistency(&p);
    check_coverage(&p, &nums);
    assert_eq!(p.maximum_sum, 2);
    assert_eq!(p.minimum_sum, 2);
}

#[test]
fn kk_single_number_three_subsets() {
    let nums: Vec<u64> = vec![10];
    let p = karmarkar_karp(&nums, 3).unwrap();
    assert_eq!(p.subsets.len(), 3);
    check_consistency(&p);
    check_coverage(&p, &nums);
    assert_eq!(p.maximum_sum, 10);
    assert_eq!(p.minimum_sum, 0);
}

#[test]
fn kk_empty_input() {
    let nums: Vec<u64> = Vec::new();
    assert_eq!(karmarkar_karp(&nums, 2), Err(SolverError::EmptyInput));
    assert_eq!(karmarkar_karp(&nums, 0), Err(SolverError::EmptyInput));
}

#[test]
fn kk_zero_subsets() {
    let nums: Vec<u64> = vec![5];
    assert_eq!(karmarkar_karp(&nums, 0), Err(SolverError::InvalidSubsetCount));
}

#[test]
fn kk_coverage_and_consistency() {
    let nums: Vec<u64> = vec![3, 1, 4, 1, 5, 9, 2, 6];
    let p = karmarkar_karp(&nums, 3).unwrap();
    assert_eq!(p.subsets.len(), 3);
    check_consistency(&p);
    check_coverage(&p, &nums);
}

#[test]
fn grasp_four_ones_two_subsets() {
    let nums: Vec<u64> = vec![1, 1, 1, 1];
    let p = grasp(&nums, 2, 5).unwrap();
    assert_eq!(p.subsets.len(), 2);
    check_consistency(&p);
    check_coverage(&p, &nums);
    assert_eq!(p.maximum_sum, 2);
}

#[test]
fn grasp_single_number_three_subsets() {
    let nums: Vec<u64> = vec![10];
    let p = grasp(&nums, 3, 4).unwrap();
    assert_eq!(p.subsets.len(), 3);
    check_consistency(&p);
    check_coverage(&p, &nums);
    assert_eq!(p.maximum_sum, 10);
    assert_eq!(p.minimum_sum, 0);
}

#[test]
fn grasp_single_subset_is_a_fixed_point() {
    // With k = 1 there are no adjacent subset pairs: the local search has an
    // empty neighborhood and returns the construction unchanged.
    let nums: Vec<u64> = vec![5, 5, 5];
    let p = grasp(&nums, 1, 3).unwrap();
    assert_eq!(p.subsets.len(), 1);
    check_consistency(&p);
    check_coverage(&p, &nums);
    assert_eq!(p.maximum_sum, 15);
    assert_eq!(p.minimum_sum, 15);
}

#[test]
fn grasp_empty_input() {
    let nums: Vec<u64> = Vec::new();
    assert_eq!(grasp(&nums, 2, 10), Err(SolverError::EmptyInput));
}

#[test]
fn grasp_zero_subsets() {
    let nums: Vec<u64> = vec![5];
    assert_eq!(grasp(&nums, 0, 10), Err(SolverError::InvalidSubsetCount));
}

#[test]
fn grasp_zero_iterations() {
    let nums: Vec<u64> = vec![5];
    assert_eq!(grasp(&nums, 1, 0), Err(SolverError::NoSolutionFound));
}

#[test]
fn grasp_coverage_and_consistency() {
    let nums: Vec<u64> = vec![3, 1, 4, 1, 5, 9, 2, 6];
    let p = grasp(&nums, 3, 20).unwrap();
    assert_eq!(p.subsets.len(), 3);
    check_consistency(&p);
    check_coverage(&p, &nums);
}

#[test]
fn greedy_heuristic_coverage_and_consistency() {
    let nums: Vec<u64> = vec![7, 3, 3, 2, 2, 2, 1];
    let p = greedy_heuristic(&nums, 2).unwrap();
    assert_eq!(p.subsets.len(), 2);
    check_consistency(&p);
    check_coverage(&p, &nums);
}

#[test]
fn greedy_heuristic_errors() {
    let empty: Vec<u64> = Vec::new();
    assert_eq!(greedy_heuristic(&empty, 2), Err(SolverError::EmptyInput));
    let nums: Vec<u64> = vec![1];
    assert_eq!(greedy_heuristic(&nums, 0), Err(SolverError::InvalidSubsetCount));
}

#[test]
fn local_search_improves_makespan() {
    let start = Partition {
        subsets: vec![
            Subset { numbers: vec![10, 2], sum: 12 },
            Subset { numbers: vec![3, 1], sum: 4 },
        ],
        maximum_sum: 12,
        minimum_sum: 4,
    };
    let p = local_search(start);
    assert!(p.maximum_sum <= 12);
    assert_eq!(p.maximum_sum, 11);
    check_consistency(&p);
    check_coverage(&p, &[10, 2, 3, 1]);
}

#[test]
fn local_search_keeps_local_optimum() {
    let start = Partition {
        subsets: vec![
            Subset { numbers: vec![9, 1], sum: 10 },
            Subset { numbers: vec![2, 8], sum: 10 },
        ],
        maximum_sum: 10,
        minimum_sum: 10,
    };
    let p = local_search(start);
    assert_eq!(p.maximum_sum, 10);
    assert_eq!(p.subsets[0].numbers, vec![9, 1]);
    assert_eq!(p.subsets[1].numbers, vec![2, 8]);
}

#[test]
fn best_neighbor_picks_steepest_descent() {
    let start = Partition {
        subsets: vec![
            Subset { numbers: vec![10, 2], sum: 12 },
            Subset { numbers: vec![3, 1], sum: 4 },
        ],
        maximum_sum: 12,
        minimum_sum: 4,
    };
    let nb = best_neighbor(&start).unwrap();
    assert_eq!(nb.maximum_sum, 11);
    assert_eq!(nb.subsets[0].numbers, vec![3, 2]);
    assert_eq!(nb.subsets[1].numbers, vec![10, 1]);
    check_consistency(&nb);
}

#[test]
fn best_neighbor_empty_neighborhood() {
    let single = Partition {
        subsets: vec![Subset { numbers: vec![5], sum: 5 }],
        maximum_sum: 5,
        minimum_sum: 5,
    };
    assert!(best_neighbor(&single).is_none());
    let with_empty = Partition {
        subsets: vec![
            Subset { numbers: vec![5], sum: 5 },
            Subset { numbers: Vec::new(), sum: 0 },
        ],
        maximum_sum: 5,
        minimum_sum: 0,
    };
    assert!(best_neighbor(&with_empty).is_none());
}

#[test]
fn subset_merge_concatenates_and_sums() {
    let s1 = Subset { numbers: vec![1, 2], sum: 3 };
    let s2 = Subset { numbers: vec![4], sum: 4 };
    let s = Subset::merge(s1, s2);
    assert_eq!(s.numbers, vec![1, 2, 4]);
    assert_eq!(s.sum, 7);
}

#[test]
fn partition_merge_pairs_largest_with_smallest() {
    let p1 = create_initial_partition(2, 8);
    let p2 = create_initial_partition(2, 7);
    let merged = Partition::merge(p1, p2);
    assert_eq!(merged.subsets.len(), 2);
    check_consistency(&merged);
    check_coverage(&merged, &[8, 7]);
    let total: i64 = merged.subsets.iter().map(|s| s.sum).sum();
    assert_eq!(total, 15);
    assert_eq!(merged.maximum_sum, 8);
    assert_eq!(merged.minimum_sum, 7);
}

#[test]
fn partition_merge_orders_sums_against_each_other() {
    // Largest sum of the first partition (11) pairs with the smallest sum of
    // the second (5); the remaining pair is 8 with 6.
    let p1 = Partition {
        subsets: vec![
            Subset { numbers: vec![4, 7], sum: 11 },
            Subset { numbers: vec![8], sum: 8 },
        ],
        maximum_sum: 11,
        minimum_sum: 8,
    };
    let p2 = Partition {
        subsets: vec![
            Subset { numbers: vec![6], sum: 6 },
            Subset { numbers: vec![5], sum: 5 },
        ],
        maximum_sum: 6,
        minimum_sum: 5,
    };
    let merged = Partition::merge(p1, p2);
    assert_eq!(merged.subsets.len(), 2);
    check_consistency(&merged);
    check_coverage(&merged, &[4, 7, 8, 6, 5]);
    let mut sums: Vec<i64> = merged.subsets.iter().map(|s| s.sum).collect();
    sums.sort_unstable();
    assert_eq!(sums, vec![14, 16]);
    assert_eq!(merged.maximum_sum, 16);
    assert_eq!(merged.minimum_sum, 14);
}

#[test]
fn merge_step_shrinks_queue_by_one_and_conserves_sum() {
    let mut queue = vec![
        create_initial_partition(2, 8),
        create_initial_partition(2, 7),
        create_initial_partition(2, 6),
    ];
    merge_step(&mut queue);
    assert_eq!(queue.len(), 2);
    let total: i64 = queue
        .iter()
        .flat_map(|p| p.subsets.iter())
        .map(|s| s.sum)
        .sum();
    assert_eq!(total, 21);
    for p in &queue {
        check_consistency(p);
    }
}

#[test]
fn select_top_two_takes_largest_spreads() {
    let mut queue = vec![
        create_initial_partition(2, 6),
        create_initial_partition(2, 8),
        create_initial_partition(2, 7),
    ];
    let (first, second) = select_top_two_partitions(&mut queue);
    assert_eq!(first.maximum_sum, 8);
    assert_eq!(second.maximum_sum, 7);
    assert_eq!(queue.len(), 1);
    assert_eq!(queue[0].maximum_sum, 6);
}

#[test]
fn create_initial_partition_shape() {
    let p = create_initial_partition(3, 9);
    assert_eq!(p.subsets.len(), 3);
    assert_eq!(p.subsets[0].numbers, vec![9]);
    assert!(p.subsets[1].numbers.is_empty());
    assert!(p.subsets[2].numbers.is_empty());
    check_consistency(&p);
    assert_eq!(p.maximum_sum, 9);
    assert_eq!(p.minimum_sum, 0);
    assert_eq!(p.min_max_sum_difference(), 9);
    assert_eq!(p.solution_quality(), 9);
}

#[test]
fn quality_getters() {
    let p = create_initial_partition(1, 4);
    assert_eq!(p.solution_quality(), 4);
    assert_eq!(p.min_max_sum_difference(), 0);
}

#[test]
fn assign_round_places_largest_candidate_in_first_minimal_subset() {
    let mut parts = vec![
        Subset { numbers: vec![2], sum: 2 },
        Subset { numbers: Vec::new(), sum: 0 },
    ];
    let mut queue: Vec<u64> = vec![3, 9, 5];
    // The candidate list holds all three numbers; index 0 selects the largest.
    assign_round(&mut parts, &mut queue, 0);
    assert_eq!(parts.len(), 2);
    assert_eq!(parts[0].numbers, vec![2]);
    assert_eq!(parts[1].numbers, vec![9]);
    assert_eq!(parts[1].sum, 9);
    queue.sort_unstable();
    assert_eq!(queue, vec![3, 5]);
}

#[test]
fn assign_round_ties_go_to_the_lowest_index() {
    let mut parts = vec![
        Subset { numbers: vec![1], sum: 1 },
        Subset { numbers: vec![1], sum: 1 },
    ];
    let mut queue: Vec<u64> = vec![7];
    assign_round(&mut parts, &mut queue, 0);
    assert_eq!(parts[0].numbers, vec![1, 7]);
    assert_eq!(parts[0].sum, 8);
    assert_eq!(parts[1].numbers, vec![1]);
    assert!(queue.is_empty());
}

#[test]
fn select_top_two_keeps_duplicates_intact() {
    // Four seeds holding the same number: whichever two leave, exactly two
    // stay behind and nothing is dropped or duplicated.
    let mut queue = vec![
        create_initial_partition(2, 1),
        create_initial_partition(2, 1),
        create_initial_partition(2, 1),
        create_initial_partition(2, 1),
    ];
    let (first, second) = select_top_two_partitions(&mut queue);
    assert_eq!(queue.len(), 2);
    assert_eq!(first.maximum_sum, 1);
    assert_eq!(second.maximum_sum, 1);
    let ones: usize = queue
        .iter()
        .chain([&first, &second])
        .flat_map(|p| p.subsets.iter())
        .map(|s| s.numbers.len())
        .sum();
    assert_eq!(ones, 4);
}
