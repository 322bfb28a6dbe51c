use pareto_r::DimensionMismatch;
use pareto_r::ParetoPoint;
use pareto_r::ParetoProblem;
use pareto_r::ranker::dominance_table;
use pareto_r::ranker::layer_ranks;

fn point(tag: i32, v: Vec<i32>) -> ParetoPoint {
    ParetoPoint { v, tag, rank: 0 }
}

fn problem_of(dimensions: usize, points: &[(i32, Vec<i32>)]) -> ParetoProblem {
    let mut p = ParetoProblem::new(dimensions);
    for (tag, v) in points {
        assert_eq!(p.add_point(*tag, v.clone()), Ok(()));
    }
    p
}

fn rank_of(p: &ParetoProblem, tag: i32) -> usize {
    let found: Vec<usize> = p.points.iter().filter(|q| q.tag == tag).map(|q| q.rank).collect();
    assert_eq!(found.len(), 1);
    found[0]
}

fn dominates(a: &[i32], b: &[i32]) -> bool {
    a.len() == b.len()
        && a.iter().zip(b.iter()).all(|(x, y)| x <= y)
        && a.iter().zip(b.iter()).any(|(x, y)| x < y)
}

fn sample() -> Vec<(i32, Vec<i32>)> {
    vec![
        (500, vec![50, 50]),
        (99, vec![30, 30]),
        (100, vec![10, 20]),
        (101, vec![20, 10]),
        (33, vec![15, 15]),
    ]
}

fn scattered() -> Vec<(i32, Vec<i32>)> {
    let mut points = Vec::new();
    let mut seed: i64 = 12345;
    for tag in 0..60 {
        let mut v = Vec::new();
        for _ in 0..3 {
            seed = (seed * 1103515245 + 12345) % 2147483648;
            v.push((seed % 17) as i32 - 8);
        }
        points.push((tag, v));
    }
    points
}

#[test]
fn new_problem_is_empty() {
    let p = ParetoProblem::new(4);
    assert_eq!(p.dimensions, 4);
    assert!(p.points.is_empty());
}

#[test]
fn add_point_appends_with_rank_zero() {
    let mut p = ParetoProblem::new(2);
    assert_eq!(p.add_point(7, vec![3, 4]), Ok(()));
    assert_eq!(p.add_point(-7, vec![1, 2]), Ok(()));
    assert_eq!(p.dimensions, 2);
    assert_eq!(p.points.len(), 2);
    assert_eq!(p.points[0].tag, 7);
    assert_eq!(p.points[0].v, vec![3, 4]);
    assert_eq!(p.points[0].rank, 0);
    assert_eq!(p.points[1].tag, -7);
    assert_eq!(p.points[1].v, vec![1, 2]);
    assert_eq!(p.points[1].rank, 0);
}

#[test]
fn five_points_two_objectives() {
    let mut p = problem_of(2, &sample());
    p.solve();
    assert_eq!(rank_of(&p, 33), 0);
    assert_eq!(rank_of(&p, 100), 0);
    assert_eq!(rank_of(&p, 101), 0);
    assert_eq!(rank_of(&p, 99), 1);
    assert_eq!(rank_of(&p, 500), 2);
    assert_eq!(p.dimensions, 2);
    assert_eq!(p.points.len(), 5);
    assert_eq!(p.points[0].tag, 500);
    assert_eq!(p.points[0].v, vec![50, 50]);
    assert_eq!(p.points[4].tag, 33);
    assert_eq!(p.points[4].v, vec![15, 15]);
}

#[test]
fn identical_vectors_share_rank_zero() {
    let mut p = ParetoProblem::new(2);
    for tag in 0..10 {
        assert_eq!(p.add_point(tag, vec![5, 5]), Ok(()));
    }
    p.solve();
    for q in &p.points {
        assert_eq!(q.rank, 0);
    }
}

#[test]
fn grid_ranks_are_anti_diagonals() {
    let mut p = ParetoProblem::new(2);
    for x in 0..10 {
        for y in 0..10 {
            assert_eq!(p.add_point(x * 10 + y, vec![x * 10, y * 10]), Ok(()));
        }
    }
    p.solve();
    let mut sizes = vec![0usize; 19];
    for q in &p.points {
        let i = q.tag / 10;
        let j = q.tag % 10;
        assert_eq!(q.rank, (i + j) as usize);
        sizes[q.rank] += 1;
    }
    let front: Vec<i32> = p.points.iter().filter(|q| q.rank == 0).map(|q| q.tag).collect();
    assert_eq!(front, vec![0]);
    for k in 0..19usize {
        let expected = if k < 10 { k + 1 } else { 19 - k };
        assert_eq!(sizes[k], expected);
    }
}

#[test]
fn empty_problem_solves_to_nothing() {
    let mut p = ParetoProblem::new(2);
    p.solve();
    assert!(p.points.is_empty());
    assert_eq!(p.dimensions, 2);
}

#[test]
fn single_point_has_rank_zero() {
    let mut p = problem_of(3, &[(1, vec![9, 9, 9])]);
    p.solve();
    assert_eq!(p.points[0].rank, 0);
}

#[test]
fn wrong_length_is_rejected() {
    let mut p = ParetoProblem::new(2);
    assert_eq!(p.add_point(1, vec![1, 2]), Ok(()));
    let refused = p.add_point(2, vec![1, 2, 3]);
    assert_eq!(refused, Err(DimensionMismatch { expected: 2, found: 3 }));
    assert_eq!(p.points.len(), 1);
    assert_eq!(p.dimensions, 2);
    assert_eq!(p.points[0].tag, 1);
    assert_eq!(p.add_point(3, vec![]), Err(DimensionMismatch { expected: 2, found: 0 }));
    assert_eq!(p.points.len(), 1);
}

#[test]
fn chain_ranks_count_up() {
    let mut p = problem_of(1, &[(0, vec![4]), (1, vec![2]), (2, vec![3]), (3, vec![1]), (4, vec![3])]);
    p.solve();
    let ranks: Vec<usize> = p.points.iter().map(|q| q.rank).collect();
    assert_eq!(ranks, vec![3, 1, 2, 0, 2]);
}

#[test]
fn rank_is_one_more_than_the_deepest_dominator() {
    // 3 is dominated by 0 (rank 0) and by 2 (rank 1): it lies in layer 2.
    let mut p = problem_of(
        2,
        &[(0, vec![0, 0]), (1, vec![0, 9]), (2, vec![1, 1]), (3, vec![2, 2]), (4, vec![9, 0])],
    );
    p.solve();
    let ranks: Vec<usize> = p.points.iter().map(|q| q.rank).collect();
    assert_eq!(ranks, vec![0, 1, 1, 2, 1]);
}

#[test]
fn no_objectives_means_no_dominance() {
    let mut p = problem_of(0, &[(1, vec![]), (2, vec![])]);
    p.solve();
    assert_eq!(p.points[0].rank, 0);
    assert_eq!(p.points[1].rank, 0);
}

#[test]
fn extreme_values_are_compared_exactly() {
    let mut p = problem_of(
        2,
        &[(1, vec![i32::MAX, i32::MAX]), (2, vec![i32::MIN, i32::MIN]), (3, vec![i32::MIN, i32::MAX])],
    );
    p.solve();
    assert_eq!(rank_of(&p, 2), 0);
    assert_eq!(rank_of(&p, 3), 1);
    assert_eq!(rank_of(&p, 1), 2);
}

#[test]
fn solving_overwrites_stale_ranks() {
    let mut p = problem_of(2, &sample());
    for q in p.points.iter_mut() {
        q.rank = 77;
    }
    p.solve();
    assert_eq!(rank_of(&p, 33), 0);
    assert_eq!(rank_of(&p, 500), 2);
}

#[test]
fn solving_twice_changes_nothing() {
    let mut p = problem_of(3, &scattered());
    p.solve();
    let first: Vec<(i32, Vec<i32>, usize)> =
        p.points.iter().map(|q| (q.tag, q.v.clone(), q.rank)).collect();
    p.solve();
    let second: Vec<(i32, Vec<i32>, usize)> =
        p.points.iter().map(|q| (q.tag, q.v.clone(), q.rank)).collect();
    assert_eq!(first, second);
}

#[test]
fn insertion_order_does_not_matter() {
    let points = scattered();
    let mut forward = problem_of(3, &points);
    let mut reversed: Vec<(i32, Vec<i32>)> = points.clone();
    reversed.reverse();
    reversed.rotate_left(7);
    let mut backward = problem_of(3, &reversed);
    forward.solve();
    backward.solve();
    let mut a: Vec<(i32, usize)> = forward.points.iter().map(|q| (q.tag, q.rank)).collect();
    let mut b: Vec<(i32, usize)> = backward.points.iter().map(|q| (q.tag, q.rank)).collect();
    a.sort();
    b.sort();
    assert_eq!(a, b);
}

#[test]
fn dominators_rank_lower() {
    let mut p = problem_of(3, &scattered());
    p.solve();
    let mut pairs = 0;
    for a in &p.points {
        for b in &p.points {
            if dominates(&a.v, &b.v) {
                assert!(a.rank < b.rank);
                pairs += 1;
            }
        }
    }
    assert!(pairs > 0);
}

#[test]
fn rank_zero_is_the_front() {
    let mut p = problem_of(3, &scattered());
    p.solve();
    let n = p.points.len();
    for b in &p.points {
        let dominated = p.points.iter().any(|a| dominates(&a.v, &b.v));
        assert_eq!(b.rank == 0, !dominated);
        assert!(b.rank < n);
    }
}

#[test]
fn every_layer_rests_on_the_one_before() {
    let mut p = problem_of(3, &scattered());
    p.solve();
    let deepest = p.points.iter().map(|q| q.rank).max().unwrap();
    assert!(deepest >= 2);
    for b in &p.points {
        if b.rank > 0 {
            assert!(p.points.iter().any(|a| dominates(&a.v, &b.v) && a.rank + 1 == b.rank));
        }
        for a in &p.points {
            if a.rank == b.rank {
                assert!(!dominates(&a.v, &b.v));
            }
        }
    }
}

#[test]
fn equal_vectors_get_equal_ranks() {
    let mut p = problem_of(
        2,
        &[(1, vec![3, 3]), (2, vec![1, 1]), (3, vec![3, 3]), (4, vec![2, 2]), (5, vec![3, 3])],
    );
    p.solve();
    assert_eq!(rank_of(&p, 1), 2);
    assert_eq!(rank_of(&p, 3), 2);
    assert_eq!(rank_of(&p, 5), 2);
}

#[test]
fn point_dominance() {
    let a = point(1, vec![1, 2]);
    let b = point(2, vec![1, 3]);
    let c = point(3, vec![2, 1]);
    let d = point(4, vec![1, 2, 3]);
    assert!(a.dominates(&b));
    assert!(!b.dominates(&a));
    assert!(!a.dominates(&a));
    assert!(!a.dominates(&c));
    assert!(!c.dominates(&a));
    assert!(!a.dominates(&d));
    assert!(!d.dominates(&a));
    assert!(!point(5, vec![]).dominates(&point(6, vec![])));
}

#[test]
fn table_lists_and_counts() {
    let points = vec![point(0, vec![2, 2]), point(1, vec![1, 1]), point(2, vec![3, 3]), point(3, vec![1, 5])];
    let (below, count) = dominance_table(&points);
    assert_eq!(below, vec![vec![2], vec![0, 2, 3], vec![], vec![]]);
    assert_eq!(count, vec![1, 0, 2, 1]);
}

#[test]
fn ranks_of_a_plain_list() {
    let points = vec![point(0, vec![2, 2]), point(1, vec![1, 1]), point(2, vec![3, 3]), point(3, vec![1, 5])];
    assert_eq!(layer_ranks(&points), vec![1, 0, 2, 1]);
    assert_eq!(layer_ranks(&Vec::new()), Vec::<usize>::new());
}

#[test]
fn greeting() {
    let p = ParetoProblem::new(2);
    assert_eq!(p.hello(), "Hello from a RUST interface Pareto problem.");
}

#[test]
fn one_front_of_distinct_points() {
    let mut p = problem_of(2, &[(1, vec![1, 3]), (2, vec![2, 2]), (3, vec![3, 1]), (4, vec![0, 4])]);
    p.solve();
    for q in &p.points {
        assert_eq!(q.rank, 0);
    }
}

#[test]
fn better_on_one_objective_only_is_enough() {
    let mut p = problem_of(2, &[(1, vec![5, 5]), (2, vec![5, 4])]);
    p.solve();
    assert_eq!(rank_of(&p, 2), 0);
    assert_eq!(rank_of(&p, 1), 1);
}
