use ball_game::algorithm::calculate_strategy;

/// The strategy table computed by brute force: how many balls to take from
/// each pile of 1..=n, scanning the allowed amounts from the last one back.
fn reference_table(n: u32, allowed: &[u32]) -> Vec<u32> {
    let mut t = vec![0u32; n as usize + 1];
    for i in 1..=n {
        for &j in allowed.iter().rev() {
            if i >= j && t[(i - j) as usize] == 0 {
                t[i as usize] = j;
                break;
            }
        }
    }
    t.remove(0);
    t
}

#[test]
fn strategy_for_one_to_three() {
    assert_eq!(
        calculate_strategy(10, &vec![1, 2, 3]),
        vec![1, 2, 3, 0, 1, 2, 3, 0, 1, 2]
    );
}

#[test]
fn strategy_for_no_balls_is_empty() {
    assert_eq!(calculate_strategy(0, &vec![1, 2]), Vec::<u32>::new());
}

#[test]
fn strategy_without_moves_is_all_zero() {
    assert_eq!(calculate_strategy(4, &vec![]), vec![0, 0, 0, 0]);
}

#[test]
fn strategy_with_moves_too_large() {
    assert_eq!(calculate_strategy(3, &vec![5, 7]), vec![0, 0, 0]);
}

#[test]
fn strategy_scans_from_the_last_amount() {
    // Unsorted: the last amount is tried first.
    assert_eq!(calculate_strategy(3, &vec![3, 1]), vec![1, 0, 1]);
    // Sorted: the largest winning move is taken.
    assert_eq!(calculate_strategy(3, &vec![1, 3]), vec![1, 0, 3]);
}

#[test]
fn strategy_with_zero_amount_last_gives_zero() {
    // A zero scanned first always qualifies and yields 0.
    assert_eq!(calculate_strategy(3, &vec![1, 0]), vec![0, 0, 0]);
    // A zero scanned last only matters when nothing else qualifies.
    assert_eq!(calculate_strategy(5, &vec![0, 1, 2]), vec![1, 2, 0, 1, 2]);
}

#[test]
fn strategy_matches_brute_force() {
    let sets: Vec<Vec<u32>> = vec![
        vec![1],
        vec![2, 5],
        vec![1, 3, 4],
        vec![4, 1, 3],
        vec![2, 3, 7, 11],
        vec![6, 6, 1],
    ];
    for allowed in sets {
        for n in 0..60u32 {
            assert_eq!(calculate_strategy(n, &allowed), reference_table(n, &allowed));
        }
    }
}

#[test]
fn winning_take_leaves_losing_pile() {
    let allowed = vec![1, 3, 4];
    let t = calculate_strategy(50, &allowed);
    for n in 1..=50usize {
        let take = t[n - 1];
        assert!(take as usize <= n);
        if take != 0 {
            assert!(allowed.contains(&take));
            let rest = n - take as usize;
            assert!(rest == 0 || t[rest - 1] == 0);
        }
    }
}

#[test]
fn losing_pile_has_no_winning_move() {
    let allowed = vec![2, 5, 7];
    let t = calculate_strategy(60, &allowed);
    for n in 1..=60usize {
        if t[n - 1] == 0 {
            for &j in &allowed {
                let j = j as usize;
                if j <= n {
                    let rest = n - j;
                    assert!(rest > 0 && t[rest - 1] != 0);
                }
            }
        }
    }
}

#[test]
fn ascending_amounts_take_the_largest_winning_move() {
    let allowed = vec![1, 2, 5, 6];
    let t = calculate_strategy(40, &allowed);
    for n in 1..=40usize {
        for &j in &allowed {
            let ju = j as usize;
            if ju <= n && (ju == n || t[n - ju - 1] == 0) {
                assert!(j <= t[n - 1]);
            }
        }
    }
}

#[test]
fn winning_side_stays_winning() {
    let allowed = vec![1, 2, 3];
    let t = calculate_strategy(30, &allowed);
    for pile in 1..=30usize {
        let take = t[pile - 1] as usize;
        if take != 0 {
            for &reply in &allowed {
                let reply = reply as usize;
                if reply + take <= pile {
                    let next = pile - take - reply;
                    assert!(next > 0 && t[next - 1] != 0);
                }
            }
        }
    }
}

#[test]
fn large_amounts_are_ignored() {
    let cases: Vec<Vec<u32>> = vec![vec![1, 20, 3], vec![50, 2, 7, 100], vec![9, 8, 1]];
    for a in cases {
        for n in 0..12u32 {
            let b: Vec<u32> = a.iter().filter(|j| **j <= n).cloned().collect();
            assert_eq!(calculate_strategy(n, &a), calculate_strategy(n, &b));
        }
    }
}

#[test]
fn smaller_table_is_prefix() {
    let a = vec![1, 4, 5];
    let big = calculate_strategy(40, &a);
    for n in 0..=40u32 {
        assert_eq!(calculate_strategy(n, &a)[..], big[..n as usize]);
    }
}
