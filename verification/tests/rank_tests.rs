use road_match::rank::rank;
use road_match::rank::window_offsets;
use road_match::rank::TOP_K;
use road_match::sort::compare_scores;
use std::cmp::Ordering;

#[test]
fn ties_go_to_the_earlier_cell() {
    assert_eq!(rank(&[5, -1, 2, 2, 9], 3), vec![2, 3, 0]);
}

#[test]
fn negative_scores_are_left_out() {
    assert_eq!(rank(&[5, -1, 2, 2, 9], 10), vec![2, 3, 0, 4]);
    assert_eq!(rank(&[-1, -2, i32::MIN], 3), Vec::<usize>::new());
}

#[test]
fn zero_is_a_valid_score() {
    assert_eq!(rank(&[1, 0, -1], 3), vec![1, 0]);
}

#[test]
fn cap_of_zero_keeps_nothing() {
    assert_eq!(rank(&[5, 1, 2], 0), Vec::<usize>::new());
}

#[test]
fn empty_buffer_has_no_ranking() {
    assert_eq!(rank(&[], 5), Vec::<usize>::new());
}

#[test]
fn best_score_is_found_wherever_it_stands() {
    assert_eq!(rank(&[5, 9, 1], 1), vec![2]);
    assert_eq!(rank(&[9, 8, 7, 6, 5, 4, 3, 2, 1, 0], 3), vec![9, 8, 7]);
}

#[test]
fn equal_scores_keep_cell_order() {
    let scores = vec![i32::MAX; 40];
    assert_eq!(rank(&scores, 4), vec![0, 1, 2, 3]);
    assert_eq!(rank(&[7, 3, 7, 3, 7, 3], 5), vec![1, 3, 5, 0, 2]);
}

#[test]
fn ranking_is_never_longer_than_the_cap() {
    let mut scores = Vec::new();
    for i in 0..100 {
        scores.push((i * 37) % 101);
    }
    let best = rank(&scores, TOP_K);
    assert_eq!(best.len(), 11);
    for pair in best.windows(2) {
        let (a, b) = (pair[0], pair[1]);
        assert!(scores[a] < scores[b] || (scores[a] == scores[b] && a < b));
    }
    for (i, s) in scores.iter().enumerate() {
        if !best.contains(&i) {
            assert!(*s >= scores[best[10]]);
        }
    }
}

#[test]
fn ranking_twice_gives_the_same() {
    let scores = vec![4, 4, 1, -3, 1, 8, 0, 0, 4];
    assert_eq!(rank(&scores, 6), rank(&scores, 6));
    assert_eq!(rank(&scores, 6), vec![6, 7, 2, 4, 0, 1]);
}

#[test]
fn offsets_are_row_and_column_in_the_window() {
    assert_eq!(window_offsets(&vec![0, 5, 10, 3], 4), vec![(0, 0), (1, 1), (2, 2), (0, 3)]);
    assert_eq!(window_offsets(&Vec::new(), 4), Vec::<(usize, usize)>::new());
}

#[test]
fn scores_compare_whatever_the_cell() {
    assert_eq!(compare_scores(&(9, 1), &(0, 2)), Ordering::Less);
    assert_eq!(compare_scores(&(0, 2), &(9, 1)), Ordering::Greater);
    assert_eq!(compare_scores(&(0, 2), &(9, 2)), Ordering::Equal);
}
