use cross_stitch_solver::error::StitchError;
use cross_stitch_solver::grid_cell::GridCell;
use cross_stitch_solver::symbolic_sum::decimal_text;
use cross_stitch_solver::symbolic_sum::has_no_square_divisor;
use cross_stitch_solver::symbolic_sum::split_by_candidates;
use cross_stitch_solver::symbolic_sum::SymbolicSum;
use std::collections::HashMap;

#[test]
fn test_root_no_constant_2_square() {
    let irrationals = SymbolicSum::decompose(4);
    assert_eq!(irrationals, HashMap::from([(1, 2)]));
}

#[test]
fn test_root_no_constant_5_square() {
    let irrationals = SymbolicSum::decompose(25);
    assert_eq!(irrationals, HashMap::from([(1, 5)]));
}

#[test]
fn test_root_no_constant_2_root() {
    let irrationals = SymbolicSum::decompose(2);
    assert_eq!(irrationals, HashMap::from([(2, 1)]));
}

#[test]
fn test_root_no_constant_2_2_root() {
    let irrationals = SymbolicSum::decompose(8);
    assert_eq!(irrationals, HashMap::from([(2, 2)]));
}

#[test]
fn test_root_no_constant_4_2_root() {
    let irrationals = SymbolicSum::decompose(32);
    assert_eq!(irrationals, HashMap::from([(2, 4)]));
}

#[test]
fn test_root_no_constant_5_root() {
    let irrationals = SymbolicSum::decompose(5);
    assert_eq!(irrationals, HashMap::from([(5, 1)]));
}

#[test]
fn test_symbolic_sum_string_empty() {
    let sum = SymbolicSum::default();
    assert_eq!(sum.to_string(), "0");
}

#[test]
fn test_symbolic_sum_string_constant() {
    let mut sum = SymbolicSum::default();
    sum.constant = 10;
    assert_eq!(sum.to_string(), "10");
}

#[test]
fn test_symbolic_sum_string_single_irrational() {
    let mut sum = SymbolicSum::default();
    sum.square_root_terms.insert(2, 1);
    assert_eq!(sum.to_string(), "0 + √2");
}

#[test]
fn test_symbolic_sum_from_cells_constant() {
    let mut sum = SymbolicSum::default();
    sum.add_distance(GridCell { x: 0, y: 0 }, GridCell { x: 0, y: 1 })
        .unwrap();
    assert_eq!(sum.to_string(), "1");
}

#[test]
fn test_symbolic_sum_from_cells_irrational_1() {
    let mut sum = SymbolicSum::default();
    sum.add_distance(GridCell { x: 1, y: 1 }, GridCell { x: 2, y: 0 })
        .unwrap();
    assert_eq!(sum.to_string(), "0 + √2");
}

#[test]
fn numbers_without_prime_factors_decompose_to_one() {
    assert_eq!(SymbolicSum::decompose(0), HashMap::from([(1, 1)]));
    assert_eq!(SymbolicSum::decompose(1), HashMap::from([(1, 1)]));
    assert_eq!(SymbolicSum::square_root_parts(0), (1, 1));
    assert_eq!(SymbolicSum::square_root_parts(1), (1, 1));
}

#[test]
fn decomposition_splits_square_and_square_free_part() {
    assert_eq!(SymbolicSum::square_root_parts(72), (6, 2));
    assert_eq!(SymbolicSum::square_root_parts(360), (6, 10));
    assert_eq!(SymbolicSum::square_root_parts(30), (1, 30));
    assert_eq!(SymbolicSum::square_root_parts(3773), (7, 77));
    assert_eq!(SymbolicSum::square_root_parts(1 << 20), (1 << 10, 1));
    assert_eq!(SymbolicSum::square_root_parts(1 << 21), (1 << 10, 2));
    assert_eq!(SymbolicSum::decompose(72), HashMap::from([(2, 6)]));
}

#[test]
fn squares_decompose_to_their_roots() {
    for k in 1..200usize {
        assert_eq!(SymbolicSum::square_root_parts(k * k), (k, 1));
        assert_eq!(SymbolicSum::decompose(k * k), HashMap::from([(1, k)]));
    }
}

#[test]
fn decomposition_multiplies_back_and_leaves_no_square() {
    for n in 1..2000usize {
        let (s, r) = SymbolicSum::square_root_parts(n);
        assert_eq!(s * s * r, n);
        let mut k = 2;
        while k * k <= r {
            assert_ne!(r % (k * k), 0);
            k += 1;
        }
    }
}

#[test]
fn decomposition_of_large_numbers() {
    let prime: usize = 2_147_483_647;
    assert_eq!(SymbolicSum::square_root_parts(prime), (1, prime));
    assert_eq!(SymbolicSum::square_root_parts(prime * prime), (prime, 1));
    assert_eq!(
        SymbolicSum::square_root_parts(prime * 2_147_483_629),
        (1, prime * 2_147_483_629)
    );
    assert_eq!(
        SymbolicSum::square_root_parts(8_007_937 * 8_007_937 * 7_993),
        (8_007_937, 7_993)
    );
}

#[test]
fn candidates_are_taken_out_as_often_as_they_divide() {
    assert_eq!(split_by_candidates(1, &vec![]), (1, 1, 1));
    assert_eq!(split_by_candidates(7, &vec![7]), (1, 7, 1));
    assert_eq!(split_by_candidates(49, &vec![7, 7]), (7, 1, 1));
    assert_eq!(split_by_candidates(343, &vec![7, 7, 7]), (7, 7, 1));
    assert_eq!(split_by_candidates(360, &vec![2, 2, 2, 3, 3, 5]), (6, 10, 1));
    assert_eq!(split_by_candidates(210, &vec![2, 3, 5, 7]), (1, 210, 1));
    assert_eq!(split_by_candidates(1936, &vec![2, 2, 2, 2, 11, 11]), (44, 1, 1));
}

#[test]
fn a_candidate_counts_as_often_as_it_divides_not_as_often_as_it_is_listed() {
    // Each prime is listed once and divides twice.
    assert_eq!(split_by_candidates(36, &vec![2, 3]), (6, 1, 1));
    // A prime listed more often than it divides, and one that does not divide at all.
    assert_eq!(split_by_candidates(12, &vec![2, 2, 2, 2, 3, 3, 5]), (2, 3, 1));
    // The order of the candidates does not matter.
    assert_eq!(split_by_candidates(360, &vec![5, 3, 2]), (6, 10, 1));
    assert_eq!(
        split_by_candidates(700_734_563_358_616_609, &vec![7_993, 104_729]),
        (837_098_897, 1, 1)
    );
}

#[test]
fn what_the_candidates_miss_is_left_over() {
    assert_eq!(split_by_candidates(360, &vec![2]), (2, 2, 45));
    assert_eq!(split_by_candidates(360, &vec![]), (1, 1, 360));
    assert_eq!(split_by_candidates(49, &vec![5]), (1, 1, 49));
    assert_eq!(split_by_candidates(0, &vec![2, 3]), (1, 1, 0));
    // Candidates below 2 are passed over.
    assert_eq!(split_by_candidates(12, &vec![0, 1, 2]), (2, 1, 3));
}

#[test]
fn square_of_a_product_of_two_primes_beyond_the_small_ones() {
    // 700734563358616609 is the square of 7993 * 104729.
    let root: usize = 837_098_897;
    assert_eq!(7_993 * 104_729, root);
    assert_eq!(root * root, 700_734_563_358_616_609);
    assert_eq!(SymbolicSum::square_root_parts(root * root), (root, 1));
    assert_eq!(
        SymbolicSum::decompose(root * root),
        HashMap::from([(1, root)])
    );
    let mut sum = SymbolicSum::default();
    assert_eq!(
        sum.add_distance(GridCell { x: 0, y: 0 }, GridCell { x: 837_098_897, y: 0 }),
        Ok(())
    );
    assert_eq!(sum.to_string(), "837098897");
    assert_eq!(sum.square_root_terms.len(), 0);
}

#[test]
fn squares_and_higher_powers_of_primes_beyond_the_small_ones() {
    assert_eq!(
        SymbolicSum::square_root_parts(7_993 * 7_993),
        (7_993, 1)
    );
    assert_eq!(
        SymbolicSum::square_root_parts(7_993 * 7_993 * 7_993),
        (7_993, 7_993)
    );
    assert_eq!(
        SymbolicSum::square_root_parts(7_993 * 7_993 * 7_993 * 7_993),
        (7_993 * 7_993, 1)
    );
    assert_eq!(
        SymbolicSum::square_root_parts(104_729 * 104_729 * 8_009),
        (104_729, 8_009)
    );
    assert_eq!(
        SymbolicSum::square_root_parts(7_993 * 7_993 * 8_009 * 8_009),
        (7_993 * 8_009, 1)
    );
    assert_eq!(
        SymbolicSum::square_root_parts(7_993 * 7_993 * 8_009 * 8_011),
        (7_993, 8_009 * 8_011)
    );
    assert_eq!(
        SymbolicSum::square_root_parts(2 * 3 * 3 * 104_729 * 104_729 * 104_729),
        (3 * 104_729, 2 * 104_729)
    );
}

#[test]
fn square_free_numbers_are_told_from_the_others() {
    for free in [1, 2, 3, 5, 6, 7, 10, 30, 210, 7_993, 7_993 * 8_009, 2 * 104_729] {
        assert!(has_no_square_divisor(free), "{free}");
    }
    for not_free in [0, 4, 8, 9, 12, 16, 18, 25, 27, 49, 50, 72, 343, 7_993 * 7_993] {
        assert!(!has_no_square_divisor(not_free), "{not_free}");
    }
    // Squares whose roots lie beyond the cube root of the number.
    assert!(!has_no_square_divisor(2_147_483_647 * 2_147_483_647));
    assert!(!has_no_square_divisor(3 * 104_729 * 104_729));
    assert!(!has_no_square_divisor(700_734_563_358_616_609));
    // Large numbers without a square.
    assert!(has_no_square_divisor(2_147_483_647 * 2_147_483_629));
    assert!(has_no_square_divisor(u64::MAX));
    assert!(!has_no_square_divisor(u64::MAX - 3));
}

#[test]
fn square_free_check_agrees_with_division_by_every_square() {
    for n in 1..3000u64 {
        let mut free = true;
        let mut k = 2;
        while k * k <= n {
            if n % (k * k) == 0 {
                free = false;
            }
            k += 1;
        }
        assert_eq!(has_no_square_divisor(n), free, "{n}");
    }
}

#[test]
fn whole_numbers_are_written_in_decimal() {
    assert_eq!(decimal_text(0), "0");
    assert_eq!(decimal_text(9), "9");
    assert_eq!(decimal_text(10), "10");
    assert_eq!(decimal_text(1234567890), "1234567890");
    assert_eq!(decimal_text(usize::MAX), usize::MAX.to_string());
}

#[test]
fn terms_are_written_in_ascending_order_of_radicand() {
    let mut sum = SymbolicSum::default();
    sum.constant = 3;
    sum.square_root_terms.insert(10, 4);
    sum.square_root_terms.insert(2, 1);
    sum.square_root_terms.insert(101, 12);
    sum.square_root_terms.insert(3, 2);
    assert_eq!(sum.to_string(), "3 + √2 + 2√3 + 4√10 + 12√101");
}

#[test]
fn a_term_with_coefficient_zero_is_not_written() {
    let mut sum = SymbolicSum::default();
    sum.square_root_terms.insert(2, 0);
    sum.square_root_terms.insert(3, 1);
    sum.square_root_terms.insert(5, 0);
    assert_eq!(sum.to_string(), "0 + √3");
}

#[test]
fn distances_accumulate() {
    let mut sum = SymbolicSum::default();
    let origin = GridCell { x: 0, y: 0 };
    assert_eq!(sum.add_distance(origin, GridCell { x: 1, y: 1 }), Ok(()));
    assert_eq!(sum.add_distance(origin, GridCell { x: 2, y: 2 }), Ok(()));
    assert_eq!(sum.add_distance(origin, GridCell { x: 3, y: 4 }), Ok(()));
    assert_eq!(sum.add_distance(origin, GridCell { x: 1, y: 2 }), Ok(()));
    assert_eq!(sum.add_distance(origin, GridCell { x: 0, y: -2 }), Ok(()));
    assert_eq!(sum.constant, 7);
    assert_eq!(sum.square_root_terms, HashMap::from([(2, 3), (5, 1)]));
    assert_eq!(sum.to_string(), "7 + 3√2 + √5");
}

#[test]
fn distance_between_equal_points_counts_as_one() {
    let mut sum = SymbolicSum::default();
    let point = GridCell { x: 4, y: 4 };
    assert_eq!(sum.add_distance(point, point), Ok(()));
    assert_eq!(sum.to_string(), "1");
}

#[test]
fn distance_adds_the_same_in_both_directions() {
    let a = GridCell { x: -3, y: 7 };
    let b = GridCell { x: 9, y: 1 };
    let mut forward = SymbolicSum::default();
    let mut backward = SymbolicSum::default();
    forward.constant = 2;
    backward.constant = 2;
    assert_eq!(forward.add_distance(a, b), Ok(()));
    assert_eq!(backward.add_distance(b, a), Ok(()));
    assert_eq!(forward.constant, backward.constant);
    assert_eq!(forward.square_root_terms, backward.square_root_terms);
    // 144 + 36 = 180 = 36 * 5
    assert_eq!(forward.to_string(), "2 + 6√5");
}

#[test]
fn a_distance_too_long_for_the_coordinate_width_leaves_the_sum_as_it_is() {
    let mut sum = SymbolicSum::default();
    sum.constant = 5;
    sum.square_root_terms.insert(2, 1);
    assert_eq!(
        sum.add_distance(
            GridCell {
                x: isize::MIN,
                y: 0
            },
            GridCell {
                x: isize::MAX,
                y: 0
            }
        ),
        Err(StitchError::ArithmeticOverflow)
    );
    assert_eq!(sum.to_string(), "5 + √2");
}

#[test]
fn a_sum_that_would_not_fit_stays_as_it_is() {
    let origin = GridCell { x: 0, y: 0 };
    let mut sum = SymbolicSum::default();
    sum.constant = usize::MAX;
    sum.square_root_terms.insert(2, usize::MAX - 1);
    assert_eq!(
        sum.add_distance(origin, GridCell { x: 0, y: 1 }),
        Err(StitchError::ArithmeticOverflow)
    );
    assert_eq!(sum.constant, usize::MAX);
    assert_eq!(sum.add_distance(origin, GridCell { x: 1, y: 1 }), Ok(()));
    assert_eq!(sum.square_root_terms[&2], usize::MAX);
    assert_eq!(
        sum.add_distance(origin, GridCell { x: 1, y: 1 }),
        Err(StitchError::ArithmeticOverflow)
    );
    assert_eq!(sum.square_root_terms[&2], usize::MAX);
    assert_eq!(sum.add_root(3), Ok(()));
    assert_eq!(sum.square_root_terms[&3], 1);
}

#[test]
fn clone_of_a_sum_is_written_alike() {
    let mut sum = SymbolicSum::default();
    sum.add_root(12).unwrap();
    sum.add_root(4).unwrap();
    assert_eq!(sum.clone().to_string(), "2 + 2√3");
}
