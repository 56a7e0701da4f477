use knora::ranking::{keep_at_least, rank, top_positions};

#[test]
fn best_scores_come_first() {
    assert_eq!(top_positions(&vec![5, 9, 7, 1], 4), vec![1, 2, 0, 3]);
    assert_eq!(top_positions(&vec![5, 9, 7, 1], 2), vec![1, 2]);
    assert_eq!(top_positions(&vec![5, 9, 7, 1], 9), vec![1, 2, 0, 3]);
    assert_eq!(top_positions(&vec![5, 9, 7, 1], 0), Vec::<usize>::new());
    assert_eq!(top_positions(&Vec::new(), 3), Vec::<usize>::new());
}

#[test]
fn equal_scores_keep_their_order() {
    assert_eq!(top_positions(&vec![3, 8, 3, 8, 3], 5), vec![1, 3, 0, 2, 4]);
    assert_eq!(top_positions(&vec![0, 0, 0], 2), vec![0, 1]);
    assert_eq!(top_positions(&vec![-1, -5, -1], 3), vec![0, 2, 1]);
}

#[test]
fn threshold_is_applied_to_the_best_only() {
    assert_eq!(keep_at_least(&vec![5, 9, 7, 1], &vec![1, 2, 0], 6), vec![1, 2]);
    assert_eq!(rank(&vec![5, 9, 7, 1], 3, 6), vec![1, 2]);
    // the best is below the threshold: nothing comes back, though nothing else was looked at
    assert_eq!(rank(&vec![5, 9, 7, 1], 1, 10), Vec::<usize>::new());
    assert_eq!(rank(&vec![5, 9, 7, 1], 2, 0), vec![1, 2]);
    assert_eq!(rank(&vec![5, 9, 7, 1], 10, i64::MIN), vec![1, 2, 0, 3]);
}

#[test]
fn the_highest_score_ranks_first() {
    let scores = vec![2, 40, 17, 40, 39];
    assert_eq!(rank(&scores, 1, 0), vec![1]);
}

#[test]
fn the_best_and_earliest_position_is_the_one_result() {
    // position 2 has the highest score and is the first to have it
    let scores = vec![3, 7, 9, 9, 8];
    assert_eq!(rank(&scores, 1, 0), vec![2]);
    assert_eq!(rank(&scores, 1, 9), vec![2]);
    assert_eq!(rank(&scores, 3, 0)[0], 2);
}
