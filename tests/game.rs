use mastermind::{
    bucket_sizes, choose_guess, initialize_problem_set, is_informative, partition, select_best,
    solve_automatically, summarize, Color, Password,
};

use Color::{Blue, Green, Red, Yellow};

fn entropy_score(sizes: Vec<usize>) -> u64 {
    let total: usize = sizes.iter().sum();
    if total == 0 {
        return 0;
    }
    let mut e = 0.0f64;
    for &b in sizes.iter() {
        if b > 0 {
            let p = b as f64 / total as f64;
            e -= p * p.log2();
        }
    }
    (e * 1e12).round() as u64
}

fn pw(c: &[Color]) -> Password {
    Color::to_password(c)
}

fn attempts_for(n: usize) -> Vec<usize> {
    let space = initialize_problem_set(n);
    space
        .iter()
        .map(|s| solve_automatically(&space, s, &entropy_score).len())
        .collect()
}

#[test]
fn color_lookup_tables() {
    assert_eq!(Red.index(), 1);
    assert_eq!(Green.index(), 2);
    assert_eq!(Blue.index(), 3);
    assert_eq!(Yellow.index(), 4);
    assert_eq!(Red.abbrev(), 'r');
    assert_eq!(Green.abbrev(), 'g');
    assert_eq!(Blue.abbrev(), 'b');
    assert_eq!(Yellow.abbrev(), 'y');
    assert_eq!(Color::all(), [Red, Green, Blue, Yellow]);
    assert_eq!(Color::from_position(2), Blue);
}

#[test]
fn password_keeps_its_colors() {
    let p = pw(&[Red, Blue, Yellow]);
    assert_eq!(p.colors(), &[Red, Blue, Yellow]);
    assert_eq!(p.len(), 3);
    let q = p.clone();
    assert_eq!(q.colors(), p.colors());
    let r = Password::new(&[Green, Green]);
    assert_eq!(r.colors(), &[Green, Green]);
}

#[test]
fn feedback_counts_matching_positions() {
    let a = pw(&[Red, Green, Blue, Yellow, Red]);
    let b = pw(&[Red, Blue, Blue, Green, Yellow]);
    assert_eq!(a.check_answer(&b), 2);
    assert_eq!(b.check_answer(&a), 2);
    assert_eq!(a.check_answer(&a), 5);
    let c = pw(&[Green, Red, Red, Red, Green]);
    assert_eq!(a.check_answer(&c), 0);
}

#[test]
fn feedback_reflexive_and_symmetric_over_space() {
    let space = initialize_problem_set(2);
    for a in space.iter() {
        assert_eq!(a.check_answer(a), 2);
        for b in space.iter() {
            let f = a.check_answer(b);
            assert_eq!(f, b.check_answer(a));
            assert!(f <= 2);
        }
    }
}

#[test]
fn matches_description_compares_feedback() {
    let a = pw(&[Red, Green, Blue]);
    let b = pw(&[Red, Yellow, Blue]);
    assert!(a.matches_description(&b, 2));
    assert!(!a.matches_description(&b, 1));
    assert!(!a.matches_description(&b, 3));
}

#[test]
fn generated_secret_has_requested_length() {
    let p = Password::generate(5);
    assert_eq!(p.len(), 5);
    let e = Password::generate(0);
    assert_eq!(e.len(), 0);
}

#[test]
fn problem_space_sizes_and_order() {
    for n in 1..=4usize {
        let space = initialize_problem_set(n);
        assert_eq!(space.len(), 4usize.pow(n as u32));
        assert!(space.iter().all(|p| p.len() == n));
    }
    let space = initialize_problem_set(2);
    assert_eq!(space[0].colors(), &[Red, Red]);
    assert_eq!(space[1].colors(), &[Red, Green]);
    assert_eq!(space[4].colors(), &[Green, Red]);
    assert_eq!(space[15].colors(), &[Yellow, Yellow]);
    for i in 0..space.len() {
        for j in 0..space.len() {
            if i != j {
                assert_ne!(space[i].colors(), space[j].colors());
            }
        }
    }
}

#[test]
fn problem_space_single_position() {
    let space = initialize_problem_set(1);
    assert_eq!(space.len(), 4);
    let firsts: Vec<Color> = space.iter().map(|p| p.colors()[0]).collect();
    assert_eq!(firsts, vec![Red, Green, Blue, Yellow]);
}

#[test]
fn partition_groups_by_feedback() {
    let space = initialize_problem_set(2);
    let guess = pw(&[Red, Green]);
    let parts = partition(&guess, &space);
    assert_eq!(parts.len(), 3);
    let sizes = bucket_sizes(&parts);
    assert_eq!(sizes, vec![9, 6, 1]);
    assert_eq!(sizes.iter().sum::<usize>(), space.len());
    for (k, bucket) in parts.iter().enumerate() {
        for c in bucket.iter() {
            assert_eq!(guess.check_answer(c), k);
        }
    }
    assert_eq!(parts[2][0].colors(), &[Red, Green]);
}

#[test]
fn partition_of_empty_set() {
    let guess = pw(&[Red, Green]);
    let parts = partition(&guess, &Vec::new());
    assert_eq!(bucket_sizes(&parts), vec![0, 0, 0]);
    assert!(!is_informative(&parts));
}

#[test]
fn single_candidate_is_never_split() {
    let space = initialize_problem_set(2);
    let one = vec![pw(&[Blue, Yellow])];
    for g in space.iter() {
        assert!(!is_informative(&partition(g, &one)));
    }
    assert!(choose_guess(&space, &one, 2, &entropy_score).is_none());
}

#[test]
fn informative_needs_two_nonempty_buckets() {
    let guess = pw(&[Red]);
    let set = vec![pw(&[Red]), pw(&[Green])];
    assert!(is_informative(&partition(&guess, &set)));
    let same = vec![pw(&[Green]), pw(&[Blue])];
    assert!(!is_informative(&partition(&guess, &same)));
}

#[test]
fn select_best_takes_first_highest() {
    assert_eq!(select_best(&vec![]), None);
    assert_eq!(select_best(&vec![None, None]), None);
    assert_eq!(select_best(&vec![Some(3), None, Some(7), Some(7), Some(1)]), Some(2));
    assert_eq!(select_best(&vec![None, Some(0)]), Some(1));
}

#[test]
fn even_split_beats_single_bucket() {
    // Against {RR, RG, GR, GG}: GB puts every candidate in one bucket,
    // RR splits them as 1, 2, 1.
    let remaining = vec![pw(&[Red, Red]), pw(&[Red, Green]), pw(&[Green, Red]), pw(&[Green, Green])];
    let flat = pw(&[Yellow, Blue]);
    let split = pw(&[Red, Red]);
    assert!(!is_informative(&partition(&flat, &remaining)));
    assert!(entropy_score(bucket_sizes(&partition(&split, &remaining))) > 0);
    let pool = vec![flat, split];
    let (i, parts) = choose_guess(&pool, &remaining, 2, &entropy_score).unwrap();
    assert_eq!(i, 1);
    assert_eq!(bucket_sizes(&parts), vec![1, 2, 1]);
}

#[test]
fn choice_follows_the_scorer() {
    let remaining = vec![pw(&[Red, Red]), pw(&[Red, Green]), pw(&[Green, Red]), pw(&[Green, Green])];
    let pool = vec![pw(&[Red, Red]), pw(&[Red, Blue]), pw(&[Yellow, Blue])];
    // Prefers the partition with the largest empty-feedback bucket.
    let by_misses = |s: Vec<usize>| s[0] as u64;
    let (i, _) = choose_guess(&pool, &remaining, 2, &by_misses).unwrap();
    assert_eq!(i, 1);
    let (j, _) = choose_guess(&pool, &remaining, 2, &entropy_score).unwrap();
    assert_eq!(j, 0);
}

#[test]
fn solver_ends_on_the_secret() {
    let space = initialize_problem_set(3);
    for s in space.iter().step_by(7) {
        let rounds = solve_automatically(&space, s, &entropy_score);
        assert!(!rounds.is_empty());
        let last = rounds.last().unwrap();
        assert_eq!(last.remaining, 1);
        assert_eq!(last.guess.check_answer(s), last.hint);
        for w in rounds.windows(2) {
            assert!(w[1].remaining < w[0].remaining);
        }
    }
}

#[test]
fn single_position_scenario() {
    let space = initialize_problem_set(1);
    assert_eq!(space.len(), 4);
    let rounds = solve_automatically(&space, &pw(&[Red]), &entropy_score);
    assert_eq!(rounds.len(), 1);
    assert_eq!(rounds[0].hint, 1);
    assert_eq!(rounds[0].remaining, 1);
    let attempts = attempts_for(1);
    assert_eq!(attempts, vec![1, 2, 3, 3]);
    let summary = summarize(&attempts).unwrap();
    assert_eq!(summary.worst_index, 2);
    assert_eq!(summary.worst_attempts, 3);
    assert_eq!(summary.total_attempts, 9);
}

#[test]
fn solving_a_one_candidate_space_takes_no_round() {
    let space = vec![pw(&[Blue, Blue])];
    let rounds = solve_automatically(&space, &space[0], &entropy_score);
    assert!(rounds.is_empty());
}

#[test]
fn batch_average_in_range_and_reproducible() {
    let first = attempts_for(2);
    let second = attempts_for(2);
    assert_eq!(first, second);
    let summary = summarize(&first).unwrap();
    let again = summarize(&second).unwrap();
    assert_eq!(summary.worst_index, again.worst_index);
    assert_eq!(summary.worst_attempts, again.worst_attempts);
    assert_eq!(summary.total_attempts, 50);
    assert_eq!(summary.worst_index, 8);
    assert_eq!(summary.worst_attempts, 4);
    let average = summary.total_attempts as f64 / first.len() as f64;
    assert!(average >= 1.0);
    assert!(first.iter().all(|&a| a >= 1 && a < 16));
}

#[test]
fn batch_over_three_positions() {
    let attempts = attempts_for(3);
    let summary = summarize(&attempts).unwrap();
    assert_eq!(attempts.len(), 64);
    assert_eq!(summary.total_attempts, 250);
    assert_eq!(summary.worst_index, 11);
    assert_eq!(summary.worst_attempts, 5);
}

#[test]
fn summarize_edge_cases() {
    assert!(summarize(&vec![]).is_none());
    let s = summarize(&vec![2, 5, 5, 1]).unwrap();
    assert_eq!(s.worst_index, 1);
    assert_eq!(s.worst_attempts, 5);
    assert_eq!(s.total_attempts, 13);
    let big = summarize(&vec![usize::MAX, usize::MAX]).unwrap();
    assert_eq!(big.total_attempts, 2 * (usize::MAX as u128));
}
