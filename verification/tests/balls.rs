use ball_game::balls::{remove_in_turn, remove_last, selected_positions};

#[test]
fn positions_of_selected_flags() {
    assert_eq!(selected_positions(&vec![false, true, true, false, true]), vec![1, 2, 4]);
    assert_eq!(selected_positions(&vec![]), Vec::<usize>::new());
    assert_eq!(selected_positions(&vec![false, false]), Vec::<usize>::new());
}

#[test]
fn removals_count_in_the_shortened_list() {
    let mut v = vec!['a', 'b', 'c', 'd'];
    let (removed, stopped) = remove_in_turn(&mut v, &vec![0, 1]);
    assert_eq!(removed, vec!['a', 'c']);
    assert_eq!(v, vec!['b', 'd']);
    assert_eq!(stopped, None);
}

#[test]
fn removals_stop_past_the_end() {
    let mut v = vec![10, 20, 30];
    let (removed, stopped) = remove_in_turn(&mut v, &vec![1, 2, 0]);
    assert_eq!(removed, vec![20]);
    assert_eq!(v, vec![10, 30]);
    assert_eq!(stopped, Some(2));
}

#[test]
fn removals_match_vec_remove() {
    let positions = vec![0usize, 2, 3];
    let mut expected = vec![1, 2, 3, 4, 5, 6];
    let mut expected_removed = Vec::new();
    for &p in &positions {
        expected_removed.push(expected.remove(p));
    }
    let mut v = vec![1, 2, 3, 4, 5, 6];
    let (removed, stopped) = remove_in_turn(&mut v, &positions);
    assert_eq!((v, removed, stopped), (expected, expected_removed, None));
}

#[test]
fn pop_from_the_end() {
    let mut v = vec![1, 2, 3, 4];
    assert_eq!(remove_last(&mut v, 3), vec![4, 3, 2]);
    assert_eq!(v, vec![1]);
    assert_eq!(remove_last(&mut v, 5), vec![1]);
    assert!(v.is_empty());
    assert_eq!(remove_last(&mut v, 0), Vec::<i32>::new());
}
